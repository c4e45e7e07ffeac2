//! Gap and rift analysis.
//!
//! A rift is a discontinuity between two reads of the same audio: samples
//! dropped from one read, samples repeated (stutter), or garbage between two
//! points where the reads agree again. The functions here count runs of
//! agreeing samples and find where two reads fall back into step.
//!
//! Blocks are sample slices placed at an absolute position (`offset`): the
//! sample at index `i` of a block sits at position `offset + i`.

use vstd::prelude::*;
use crate::constants::MIN_WORDS_RIFT;

verus! {

/// Result of rift analysis between two blocks.
#[derive(Debug, Clone, Copy, PartialEq, Eq, Structural)]
pub enum RiftType {
    /// Blocks align perfectly
    NoRift,
    /// Samples were dropped from block A (need to insert from B)
    DroppedFromA(i64),
    /// Stuttering in block A (duplicate samples to remove)
    StutterInA(i64),
    /// Samples were dropped from block B (need to insert from A)
    DroppedFromB(i64),
    /// Stuttering in block B
    StutterInB(i64),
    /// Garbage section with resync point
    Garbage {
        /// Position where garbage ends in A
        sync_a: i64,
        /// Position where garbage ends in B
        sync_b: i64,
    },
    /// Unable to determine rift type
    Unknown,
}

/// Every position of a block placed at `offset` is an `i64`.
pub open spec fn positions_fit(block: Seq<i16>, offset: i64) -> bool {
    offset + block.len() <= i64::MAX
}

/// The length of a block is an `i64`.
pub open spec fn len_fits(block: Seq<i16>) -> bool {
    block.len() <= i64::MAX
}

/// The difference `pos - offset` is an `i64`.
pub open spec fn diff_fits(pos: i64, offset: i64) -> bool {
    i64::MIN <= pos - offset <= i64::MAX
}

/// Index `i` lies inside `s`.
pub open spec fn in_seq(s: Seq<i16>, i: int) -> bool {
    0 <= i < s.len()
}

/// Number of agreeing samples going forward from index `ia` of `a` and `ib`
/// of `b`, up to the first disagreement or the end of either block.
pub open spec fn fwd_run(a: Seq<i16>, ia: int, b: Seq<i16>, ib: int) -> nat
    decreases a.len() - ia,
{
    if in_seq(a, ia) && in_seq(b, ib) && a[ia] == b[ib] {
        1 + fwd_run(a, ia + 1, b, ib + 1)
    } else {
        0
    }
}

/// Number of agreeing samples going backward from index `ia` of `a` and `ib`
/// of `b` (both included), down to the first disagreement or index 0.
pub open spec fn bwd_run(a: Seq<i16>, ia: int, b: Seq<i16>, ib: int) -> nat
    decreases ia + 1,
{
    if ia >= 0 && ib >= 0 && in_seq(a, ia) && in_seq(b, ib) && a[ia] == b[ib] {
        1 + bwd_run(a, ia - 1, b, ib - 1)
    } else {
        0
    }
}

/// A search step `i` is within the limit `m`; a negative limit sets no bound.
pub open spec fn within_limit(m: i64, i: int) -> bool {
    m < 0 || i < m
}

/// The first `i >= from` such that `x[ix + i]` starts a run of at least
/// `MIN_WORDS_RIFT` samples agreeing with `y` from `iy`; the search stops at
/// the end of `x` and at the limit `m`. It is 0 when no such `i` exists.
pub open spec fn sync_fwd(x: Seq<i16>, ix: int, y: Seq<i16>, iy: int, m: i64, from: int) -> int
    decreases x.len() - (ix + from),
{
    if from < 0 || !within_limit(m, from) || !in_seq(x, ix + from) {
        0
    } else if x[ix + from] == y[iy] && fwd_run(x, ix + from, y, iy) >= MIN_WORDS_RIFT {
        from
    } else {
        sync_fwd(x, ix, y, iy, m, from + 1)
    }
}

/// The first `i >= from` (with `i < m`) such that `x[ix - i]` ends a run of at
/// least `MIN_WORDS_RIFT` samples agreeing with `y` back from `iy`; the search
/// stops before index 0. It is 0 when no such `i` exists.
pub open spec fn sync_bwd(x: Seq<i16>, ix: int, y: Seq<i16>, iy: int, m: i64, from: int) -> int
    decreases ix - from + 1,
{
    if from < 0 || from >= m || ix - from < 0 || !in_seq(x, ix - from) {
        0
    } else if x[ix - from] == y[iy] && bwd_run(x, ix - from, y, iy) >= MIN_WORDS_RIFT {
        from
    } else {
        sync_bwd(x, ix, y, iy, m, from + 1)
    }
}

/// The two resync distances that `stutter_or_gap` reports.
pub open spec fn spec_stutter_or_gap(a: Seq<i16>, ia: int, b: Seq<i16>, ib: int, m: i64) -> (int, int) {
    let ma = if in_seq(b, ib) && ia >= 0 { sync_fwd(a, ia, b, ib, m, 0) } else { 0 };
    let mb = if in_seq(a, ia) && ib >= 0 { sync_fwd(b, ib, a, ia, m, 0) } else { 0 };
    (ma, mb)
}

/// The rift that `analyze_rift_forward` reports.
pub open spec fn spec_rift_forward(
    a: Seq<i16>,
    offset_a: i64,
    end_a: i64,
    b: Seq<i16>,
    offset_b: i64,
    end_b: i64,
    m: i64,
) -> RiftType {
    let ia = end_a - offset_a;
    let ib = end_b - offset_b;
    if !in_seq(a, ia) || !in_seq(b, ib) {
        RiftType::NoRift
    } else {
        let (ma, mb) = spec_stutter_or_gap(a, ia, b, ib, m);
        if ma == 0 && mb == 0 {
            RiftType::Unknown
        } else if mb == 0 {
            RiftType::StutterInA(ma as i64)
        } else if ma == 0 {
            RiftType::StutterInB(mb as i64)
        } else {
            RiftType::Garbage { sync_a: (end_a + ma) as i64, sync_b: (end_b + mb) as i64 }
        }
    }
}

/// The rift that `analyze_rift_backward` reports.
pub open spec fn spec_rift_backward(
    a: Seq<i16>,
    offset_a: i64,
    start_a: i64,
    b: Seq<i16>,
    offset_b: i64,
    start_b: i64,
    m: i64,
) -> RiftType {
    let ia = start_a - offset_a;
    let ib = start_b - offset_b;
    if ia < 0 || ib < 0 {
        RiftType::NoRift
    } else {
        let ma = if in_seq(b, ib) { sync_bwd(a, ia, b, ib, m, 0) } else { 0 };
        let mb = if in_seq(a, ia) { sync_bwd(b, ib, a, ia, m, 0) } else { 0 };
        if ma == 0 && mb == 0 {
            RiftType::Unknown
        } else if mb == 0 {
            RiftType::DroppedFromA(ma as i64)
        } else if ma == 0 {
            RiftType::DroppedFromB(mb as i64)
        } else {
            RiftType::Garbage { sync_a: (start_a - ma) as i64, sync_b: (start_b - mb) as i64 }
        }
    }
}

/// Absolute value of a sample, as an integer.
pub open spec fn sample_abs(s: i16) -> int {
    if s < 0 { -s } else { s as int }
}

/// A sample louder than the threshold.
pub open spec fn is_loud(s: i16, threshold: i16) -> bool {
    sample_abs(s) > threshold
}

/// Whether `i` lies in `0..len`.
fn index_in(i: i64, len: usize) -> (r: bool)
    ensures
        r == (0 <= i < len),
{
    i >= 0 && (i as u128) < (len as u128)
}

proof fn lemma_fwd_run_symmetric(a: Seq<i16>, ia: int, b: Seq<i16>, ib: int)
    ensures
        fwd_run(a, ia, b, ib) == fwd_run(b, ib, a, ia),
    decreases a.len() - ia,
{
    if in_seq(a, ia) && in_seq(b, ib) && a[ia] == b[ib] {
        lemma_fwd_run_symmetric(a, ia + 1, b, ib + 1);
    }
}

proof fn lemma_bwd_run_symmetric(a: Seq<i16>, ia: int, b: Seq<i16>, ib: int)
    ensures
        bwd_run(a, ia, b, ib) == bwd_run(b, ib, a, ia),
    decreases ia + 1,
{
    if ia >= 0 && ib >= 0 && in_seq(a, ia) && in_seq(b, ib) && a[ia] == b[ib] {
        lemma_bwd_run_symmetric(a, ia - 1, b, ib - 1);
    }
}

proof fn lemma_fwd_run_bound(a: Seq<i16>, ia: int, b: Seq<i16>, ib: int)
    ensures
        ia >= 0 ==> fwd_run(a, ia, b, ib) <= a.len() - ia || fwd_run(a, ia, b, ib) == 0,
        fwd_run(a, ia, b, ib) > 0 ==> ia + fwd_run(a, ia, b, ib) <= a.len(),
    decreases a.len() - ia,
{
    if in_seq(a, ia) && in_seq(b, ib) && a[ia] == b[ib] {
        lemma_fwd_run_bound(a, ia + 1, b, ib + 1);
    }
}

/// Compare blocks forward until samples differ.
///
/// Starting from `pos_a` in block A and `pos_b` in block B, counts how many
/// consecutive samples match.
pub fn overlap_forward(
    block_a: &[i16],
    offset_a: i64,
    pos_a: i64,
    block_b: &[i16],
    offset_b: i64,
    pos_b: i64,
) -> (count: i64)
    requires
        diff_fits(pos_a, offset_a),
        diff_fits(pos_b, offset_b),
        len_fits(block_a@),
    ensures
        count == fwd_run(block_a@, pos_a - offset_a, block_b@, pos_b - offset_b),
        0 <= count,
        count <= block_a@.len(),
{
    let ia0 = pos_a - offset_a;
    let ib0 = pos_b - offset_b;
    if !index_in(ia0, block_a.len()) || !index_in(ib0, block_b.len()) {
        return 0;
    }
    let mut idx_a: usize = ia0 as usize;
    let mut idx_b: usize = ib0 as usize;
    let mut count: i64 = 0;
    while idx_a < block_a.len() && idx_b < block_b.len()
        invariant
            idx_a == ia0 + count,
            idx_b == ib0 + count,
            0 <= ia0,
            0 <= ib0,
            0 <= count,
            idx_a <= block_a@.len(),
            idx_b <= block_b@.len(),
            block_a@.len() <= i64::MAX,
            fwd_run(block_a@, ia0 as int, block_b@, ib0 as int) == count + fwd_run(
                block_a@,
                idx_a as int,
                block_b@,
                idx_b as int,
            ),
        ensures
            fwd_run(block_a@, idx_a as int, block_b@, idx_b as int) == 0,
        decreases block_a@.len() - idx_a,
    {
        if block_a[idx_a] != block_b[idx_b] {
            break;
        }
        count = count + 1;
        idx_a = idx_a + 1;
        idx_b = idx_b + 1;
    }
    count
}

/// Compare blocks backward until samples differ.
///
/// Starting from `pos_a` in block A and `pos_b` in block B, counts how many
/// consecutive samples match going backward (both starting samples included).
pub fn overlap_backward(
    block_a: &[i16],
    offset_a: i64,
    pos_a: i64,
    block_b: &[i16],
    offset_b: i64,
    pos_b: i64,
) -> (count: i64)
    requires
        diff_fits(pos_a, offset_a),
        diff_fits(pos_b, offset_b),
        len_fits(block_a@),
        pos_a - offset_a >= 0 && pos_b - offset_b >= 0 ==> in_seq(block_a@, pos_a - offset_a)
            && in_seq(block_b@, pos_b - offset_b),
    ensures
        count == bwd_run(block_a@, pos_a - offset_a, block_b@, pos_b - offset_b),
        0 <= count,
{
    let mut idx_a: i64 = pos_a - offset_a;
    let mut idx_b: i64 = pos_b - offset_b;
    let ghost ia0 = idx_a as int;
    let ghost ib0 = idx_b as int;
    if idx_a < 0 || idx_b < 0 {
        return 0;
    }
    let mut count: i64 = 0;
    while idx_a >= 0 && idx_b >= 0
        invariant
            idx_a == ia0 - count,
            idx_b == ib0 - count,
            0 <= count,
            count <= ia0 + 1,
            ia0 < block_a@.len(),
            block_a@.len() <= i64::MAX,
            ia0 >= 0,
            ib0 >= 0,
            idx_a >= 0 && idx_b >= 0 ==> in_seq(block_a@, idx_a as int) && in_seq(block_b@, idx_b as int),
            bwd_run(block_a@, ia0, block_b@, ib0) == count + bwd_run(
                block_a@,
                idx_a as int,
                block_b@,
                idx_b as int,
            ),
        ensures
            bwd_run(block_a@, idx_a as int, block_b@, idx_b as int) == 0,
        decreases idx_a + 1,
    {
        if block_a[idx_a as usize] != block_b[idx_b as usize] {
            break;
        }
        count = count + 1;
        idx_a = idx_a - 1;
        idx_b = idx_b - 1;
    }
    count
}

proof fn lemma_sync_fwd_range(x: Seq<i16>, ix: int, y: Seq<i16>, iy: int, m: i64, from: int)
    ensures
        sync_fwd(x, ix, y, iy, m, from) == 0 || (from <= sync_fwd(x, ix, y, iy, m, from) && in_seq(
            x,
            ix + sync_fwd(x, ix, y, iy, m, from),
        )),
        sync_fwd(x, ix, y, iy, m, from) >= 0,
    decreases x.len() - (ix + from),
{
    if from < 0 || !within_limit(m, from) || !in_seq(x, ix + from) {
    } else if x[ix + from] == y[iy] && fwd_run(x, ix + from, y, iy) >= MIN_WORDS_RIFT {
    } else {
        lemma_sync_fwd_range(x, ix, y, iy, m, from + 1);
    }
}

proof fn lemma_sync_bwd_range(x: Seq<i16>, ix: int, y: Seq<i16>, iy: int, m: i64, from: int)
    ensures
        sync_bwd(x, ix, y, iy, m, from) == 0 || (from <= sync_bwd(x, ix, y, iy, m, from) && 0 <= ix
            - sync_bwd(x, ix, y, iy, m, from)),
        sync_bwd(x, ix, y, iy, m, from) >= 0,
    decreases ix - from + 1,
{
    if from < 0 || from >= m || ix - from < 0 || !in_seq(x, ix - from) {
    } else if x[ix - from] == y[iy] && bwd_run(x, ix - from, y, iy) >= MIN_WORDS_RIFT {
    } else {
        lemma_sync_bwd_range(x, ix, y, iy, m, from + 1);
    }
}

/// Searches `x` forward from index `ix` for the start of a run of at least
/// `MIN_WORDS_RIFT` samples agreeing with `y` from index `iy`.
fn find_sync_forward(x: &[i16], ix: i64, y: &[i16], iy: i64, max_search: i64) -> (r: i64)
    requires
        0 <= ix,
        in_seq(y@, iy as int),
        len_fits(x@),
    ensures
        r == sync_fwd(x@, ix as int, y@, iy as int, max_search, 0),
{
    let target = y[iy as usize];
    if !index_in(ix, x.len()) {
        return 0;
    }
    let mut i: i64 = 0;
    while (max_search < 0 || i < max_search) && index_in(ix + i, x.len())
        invariant
            0 <= i,
            0 <= ix,
            ix + i <= x@.len(),
            x@.len() <= i64::MAX,
            target == y@[iy as int],
            in_seq(y@, iy as int),
            sync_fwd(x@, ix as int, y@, iy as int, max_search, 0) == sync_fwd(
                x@,
                ix as int,
                y@,
                iy as int,
                max_search,
                i as int,
            ),
        decreases x@.len() - (ix + i),
    {
        let j = ix + i;
        if x[j as usize] == target {
            let verify = overlap_forward(x, 0, j, y, 0, iy);
            if verify >= MIN_WORDS_RIFT {
                return i;
            }
        }
        i = i + 1;
    }
    0
}

/// Searches `x` backward from index `ix` for the end of a run of at least
/// `MIN_WORDS_RIFT` samples agreeing with `y` back from index `iy`.
fn find_sync_backward(x: &[i16], ix: i64, y: &[i16], iy: i64, max_search: i64) -> (r: i64)
    requires
        in_seq(x@, ix as int),
        in_seq(y@, iy as int),
        len_fits(x@),
    ensures
        r == sync_bwd(x@, ix as int, y@, iy as int, max_search, 0),
{
    let target = y[iy as usize];
    let mut i: i64 = 0;
    while i < max_search
        invariant
            0 <= i,
            i <= ix + 1,
            in_seq(x@, ix as int),
            in_seq(y@, iy as int),
            x@.len() <= i64::MAX,
            target == y@[iy as int],
            sync_bwd(x@, ix as int, y@, iy as int, max_search, 0) == sync_bwd(
                x@,
                ix as int,
                y@,
                iy as int,
                max_search,
                i as int,
            ),
        ensures
            sync_bwd(x@, ix as int, y@, iy as int, max_search, i as int) == 0,
        decreases ix - i + 1,
    {
        let search_idx = ix - i;
        if search_idx < 0 {
            break;
        }
        if x[search_idx as usize] == target {
            let verify = overlap_backward(x, 0, search_idx, y, 0, iy);
            if verify >= MIN_WORDS_RIFT {
                return i;
            }
        }
        i = i + 1;
    }
    0
}

/// Distinguish between stuttering (duplicate samples) and a gap (missing samples).
///
/// Returns `(match_in_a, match_in_b)`: the distance from `pos_a` at which `A`
/// falls back into step with `B` from `pos_b`, and the distance from `pos_b`
/// at which `B` falls back into step with `A` from `pos_a`. A distance counts
/// only where at least `MIN_WORDS_RIFT` samples agree from there; a search
/// looks at most `max_search` samples ahead (no bound when it is negative).
/// A side with no resync point reports 0.
pub fn stutter_or_gap(
    block_a: &[i16],
    offset_a: i64,
    pos_a: i64,
    block_b: &[i16],
    offset_b: i64,
    pos_b: i64,
    max_search: i64,
) -> (r: (i64, i64))
    requires
        diff_fits(pos_a, offset_a),
        diff_fits(pos_b, offset_b),
        len_fits(block_a@),
        len_fits(block_b@),
    ensures
        (r.0 as int, r.1 as int) == spec_stutter_or_gap(
            block_a@,
            pos_a - offset_a,
            block_b@,
            pos_b - offset_b,
            max_search,
        ),
{
    let ia = pos_a - offset_a;
    let ib = pos_b - offset_b;
    let mut match_a: i64 = 0;
    let mut match_b: i64 = 0;
    if index_in(ib, block_b.len()) && ia >= 0 {
        match_a = find_sync_forward(block_a, ia, block_b, ib, max_search);
    }
    if index_in(ia, block_a.len()) && ib >= 0 {
        match_b = find_sync_forward(block_b, ib, block_a, ia, max_search);
    }
    (match_a, match_b)
}

/// Analyze a forward (trailing) rift.
///
/// Called where matching data ends in a mismatch at `end_a` / `end_b`:
/// reports which block stutters, or where both fall back into step.
pub fn analyze_rift_forward(
    block_a: &[i16],
    offset_a: i64,
    end_a: i64,
    block_b: &[i16],
    offset_b: i64,
    end_b: i64,
    max_search: i64,
) -> (r: RiftType)
    requires
        diff_fits(end_a, offset_a),
        diff_fits(end_b, offset_b),
        len_fits(block_a@),
        len_fits(block_b@),
        positions_fit(block_a@, offset_a),
        positions_fit(block_b@, offset_b),
    ensures
        r == spec_rift_forward(block_a@, offset_a, end_a, block_b@, offset_b, end_b, max_search),
{
    let ia = end_a - offset_a;
    let ib = end_b - offset_b;
    if !index_in(ia, block_a.len()) || !index_in(ib, block_b.len()) {
        return RiftType::NoRift;
    }
    let (match_a, match_b) = stutter_or_gap(
        block_a,
        offset_a,
        end_a,
        block_b,
        offset_b,
        end_b,
        max_search,
    );
    proof {
        lemma_sync_fwd_range(block_a@, ia as int, block_b@, ib as int, max_search, 0);
        lemma_sync_fwd_range(block_b@, ib as int, block_a@, ia as int, max_search, 0);
    }
    if match_a == 0 && match_b == 0 {
        RiftType::Unknown
    } else if match_b == 0 {
        RiftType::StutterInA(match_a)
    } else if match_a == 0 {
        RiftType::StutterInB(match_b)
    } else {
        RiftType::Garbage { sync_a: end_a + match_a, sync_b: end_b + match_b }
    }
}

/// Analyze a backward (leading) rift.
///
/// Called where matching data going backward ends in a mismatch at
/// `start_a` / `start_b`: reports which block dropped samples, or where both
/// fall back into step.
pub fn analyze_rift_backward(
    block_a: &[i16],
    offset_a: i64,
    start_a: i64,
    block_b: &[i16],
    offset_b: i64,
    start_b: i64,
    max_search: i64,
) -> (r: RiftType)
    requires
        diff_fits(start_a, offset_a),
        diff_fits(start_b, offset_b),
        len_fits(block_a@),
        len_fits(block_b@),
        max_search > 0 && start_a - offset_a >= 0 && start_b - offset_b >= 0 ==> (in_seq(
            block_a@,
            start_a - offset_a,
        ) <==> in_seq(block_b@, start_b - offset_b)),
    ensures
        r == spec_rift_backward(block_a@, offset_a, start_a, block_b@, offset_b, start_b, max_search),
{
    let ia = start_a - offset_a;
    let ib = start_b - offset_b;
    if ia < 0 || ib < 0 {
        return RiftType::NoRift;
    }
    let mut match_a: i64 = 0;
    let mut match_b: i64 = 0;
    if index_in(ib, block_b.len()) && max_search > 0 {
        match_a = find_sync_backward(block_a, ia, block_b, ib, max_search);
    }
    if index_in(ia, block_a.len()) && max_search > 0 {
        match_b = find_sync_backward(block_b, ib, block_a, ia, max_search);
    }
    proof {
        lemma_sync_bwd_range(block_a@, ia as int, block_b@, ib as int, max_search, 0);
        lemma_sync_bwd_range(block_b@, ib as int, block_a@, ia as int, max_search, 0);
    }
    if match_a == 0 && match_b == 0 {
        RiftType::Unknown
    } else if match_b == 0 {
        RiftType::DroppedFromA(match_a)
    } else if match_a == 0 {
        RiftType::DroppedFromB(match_b)
    } else {
        RiftType::Garbage { sync_a: start_a - match_a, sync_b: start_b - match_b }
    }
}

/// The first index `k >= from` of `data` holding a loud sample.
pub open spec fn first_loud(data: Seq<i16>, from: int, threshold: i16) -> Option<int>
    decreases data.len() - from,
{
    if from < 0 || from >= data.len() {
        None
    } else if is_loud(data[from], threshold) {
        Some(from)
    } else {
        first_loud(data, from + 1, threshold)
    }
}

/// The position that `find_silence_boundary` reports.
pub open spec fn spec_silence_boundary(data: Seq<i16>, offset: i64, start: i64, threshold: i16) -> Option<i64> {
    let s = start - offset;
    if !in_seq(data, s) {
        None
    } else {
        match first_loud(data, s, threshold) {
            Some(k) => Some((offset + k) as i64),
            None => None,
        }
    }
}

proof fn lemma_first_loud_range(data: Seq<i16>, from: int, threshold: i16)
    ensures
        first_loud(data, from, threshold) matches Some(k) ==> from <= k < data.len() && is_loud(
            data[k],
            threshold,
        ) && forall|j: int| from <= j < k ==> !is_loud(#[trigger] data[j], threshold),
        first_loud(data, from, threshold) is None && 0 <= from ==> forall|j: int|
            from <= j < data.len() ==> !is_loud(#[trigger] data[j], threshold),
    decreases data.len() - from,
{
    if from < 0 || from >= data.len() {
    } else if is_loud(data[from], threshold) {
    } else {
        lemma_first_loud_range(data, from + 1, threshold);
    }
}

/// The absolute value of a sample, widened so that `i16::MIN` has one.
fn sample_abs_exec(s: i16) -> (r: i32)
    ensures
        r == sample_abs(s),
{
    let v = s as i32;
    if v < 0 {
        -v
    } else {
        v
    }
}

/// Check if a region is silent: every sample's magnitude is at most
/// `threshold` (the magnitude of `i16::MIN` is 32768).
pub fn is_silent(data: &[i16], threshold: i16) -> (r: bool)
    ensures
        r == forall|i: int| 0 <= i < data@.len() ==> !is_loud(#[trigger] data@[i], threshold),
{
    let mut i: usize = 0;
    while i < data.len()
        invariant
            i <= data@.len(),
            forall|j: int| 0 <= j < i ==> !is_loud(#[trigger] data@[j], threshold),
        decreases data@.len() - i,
    {
        let s = data[i];
        assert(data@[i as int] == s);
        let a = sample_abs_exec(s);
        if a > threshold as i32 {
            return false;
        }
        i = i + 1;
    }
    true
}

/// Find the boundary between silent and non-silent regions.
///
/// Searches forward from position `start` for the first sample louder than
/// `threshold` and returns its position, or `None` if the rest is silent or
/// `start` lies outside the block.
pub fn find_silence_boundary(data: &[i16], offset: i64, start: i64, threshold: i16) -> (r: Option<i64>)
    requires
        diff_fits(start, offset),
        positions_fit(data@, offset),
    ensures
        r == spec_silence_boundary(data@, offset, start, threshold),
{
    let s = start - offset;
    if !index_in(s, data.len()) {
        return None;
    }
    let mut k: usize = s as usize;
    let mut pos: i64 = start;
    while k < data.len()
        invariant
            pos == offset + k,
            s == start - offset,
            s <= k <= data@.len(),
            0 <= s,
            s < data@.len(),
            positions_fit(data@, offset),
            forall|j: int| s <= j < k ==> !is_loud(#[trigger] data@[j], threshold),
            first_loud(data@, s as int, threshold) == first_loud(data@, k as int, threshold),
        decreases data@.len() - k,
    {
        let v = data[k];
        assert(data@[k as int] == v);
        let a = sample_abs_exec(v);
        if a > threshold as i32 {
            assert(first_loud(data@, k as int, threshold) == Some(k as int));
            return Some(pos);
        }
        k = k + 1;
        pos = pos + 1;
    }
    None
}


/// Sample `k` back from index `j` of `x` exists and equals sample `k` back
/// from index `i` of `y`.
pub open spec fn agree_back_at(x: Seq<i16>, j: int, y: Seq<i16>, i: int, k: int) -> bool {
    &&& 0 <= j - k < x.len()
    &&& 0 <= i - k < y.len()
    &&& x[j - k] == y[i - k]
}

/// Sample `k` on from index `j` of `x` exists and equals sample `k` on from
/// index `i` of `y`.
pub open spec fn agree_fwd_at(x: Seq<i16>, j: int, y: Seq<i16>, i: int, k: int) -> bool {
    &&& 0 <= j + k < x.len()
    &&& 0 <= i + k < y.len()
    &&& x[j + k] == y[i + k]
}

/// `x` moved back `d` samples from index `ix` falls into step with `y` at
/// index `iy`: going backward, `MIN_WORDS_RIFT` samples agree.
pub open spec fn resyncs_back(x: Seq<i16>, ix: int, y: Seq<i16>, iy: int, d: int) -> bool {
    forall|k: int| 0 <= k < MIN_WORDS_RIFT ==> #[trigger] agree_back_at(x, ix - d, y, iy, k)
}

/// `x` moved on `d` samples from index `ix` falls into step with `y` at
/// index `iy`: going forward, `MIN_WORDS_RIFT` samples agree.
pub open spec fn resyncs_fwd(x: Seq<i16>, ix: int, y: Seq<i16>, iy: int, d: int) -> bool {
    forall|k: int| 0 <= k < MIN_WORDS_RIFT ==> #[trigger] agree_fwd_at(x, ix + d, y, iy, k)
}

proof fn lemma_bwd_run_agrees(x: Seq<i16>, j: int, y: Seq<i16>, i: int, n: int)
    requires
        n >= 0,
    ensures
        (bwd_run(x, j, y, i) >= n) <==> forall|k: int| 0 <= k < n ==> #[trigger] agree_back_at(x, j, y, i, k),
    decreases n,
{
    if n > 0 {
        lemma_bwd_run_agrees(x, j - 1, y, i - 1, n - 1);
        assert forall|k: int| 0 <= k < n - 1 implies #[trigger] agree_back_at(x, j - 1, y, i - 1, k)
            == agree_back_at(x, j, y, i, k + 1) by {
            assert(j - 1 - k == j - (k + 1));
            assert(i - 1 - k == i - (k + 1));
        }
        if forall|k: int| 0 <= k < n ==> #[trigger] agree_back_at(x, j, y, i, k) {
            assert(agree_back_at(x, j, y, i, 0));
            assert forall|k: int| 0 <= k < n - 1 implies #[trigger] agree_back_at(x, j - 1, y, i - 1, k) by {
                assert(agree_back_at(x, j, y, i, k + 1));
            }
        }
        if bwd_run(x, j, y, i) >= n {
            assert forall|k: int| 0 <= k < n implies #[trigger] agree_back_at(x, j, y, i, k) by {
                if k > 0 {
                    assert(agree_back_at(x, j - 1, y, i - 1, k - 1));
                }
            }
        }
    }
}

proof fn lemma_fwd_run_agrees(x: Seq<i16>, j: int, y: Seq<i16>, i: int, n: int)
    requires
        n >= 0,
    ensures
        (fwd_run(x, j, y, i) >= n) <==> forall|k: int| 0 <= k < n ==> #[trigger] agree_fwd_at(x, j, y, i, k),
    decreases n,
{
    if n > 0 {
        lemma_fwd_run_agrees(x, j + 1, y, i + 1, n - 1);
        assert forall|k: int| 0 <= k < n - 1 implies #[trigger] agree_fwd_at(x, j + 1, y, i + 1, k)
            == agree_fwd_at(x, j, y, i, k + 1) by {
            assert(j + 1 + k == j + (k + 1));
            assert(i + 1 + k == i + (k + 1));
        }
        if forall|k: int| 0 <= k < n ==> #[trigger] agree_fwd_at(x, j, y, i, k) {
            assert(agree_fwd_at(x, j, y, i, 0));
            assert forall|k: int| 0 <= k < n - 1 implies #[trigger] agree_fwd_at(x, j + 1, y, i + 1, k) by {
                assert(agree_fwd_at(x, j, y, i, k + 1));
            }
        }
        if fwd_run(x, j, y, i) >= n {
            assert forall|k: int| 0 <= k < n implies #[trigger] agree_fwd_at(x, j, y, i, k) by {
                if k > 0 {
                    assert(agree_fwd_at(x, j + 1, y, i + 1, k - 1));
                }
            }
        }
    }
}

/// What a backward step of the resync search tests is `resyncs_back`.
proof fn lemma_bwd_step(x: Seq<i16>, ix: int, y: Seq<i16>, iy: int, d: int)
    ensures
        (ix - d >= 0 && in_seq(x, ix - d) && x[ix - d] == y[iy] && bwd_run(x, ix - d, y, iy) >= MIN_WORDS_RIFT)
            <==> resyncs_back(x, ix, y, iy, d),
{
    lemma_bwd_run_agrees(x, ix - d, y, iy, MIN_WORDS_RIFT as int);
    if resyncs_back(x, ix, y, iy, d) {
        assert(agree_back_at(x, ix - d, y, iy, 0));
    }
}

/// What a forward step of the resync search tests is `resyncs_fwd`.
proof fn lemma_fwd_step(x: Seq<i16>, ix: int, y: Seq<i16>, iy: int, d: int)
    ensures
        (in_seq(x, ix + d) && x[ix + d] == y[iy] && fwd_run(x, ix + d, y, iy) >= MIN_WORDS_RIFT)
            <==> resyncs_fwd(x, ix, y, iy, d),
{
    lemma_fwd_run_agrees(x, ix + d, y, iy, MIN_WORDS_RIFT as int);
    if resyncs_fwd(x, ix, y, iy, d) {
        assert(agree_fwd_at(x, ix + d, y, iy, 0));
    }
}

/// The backward search finds the least distance (from `from`, below `m`)
/// at which `x` resyncs, and 0 only where none does or it is `from == 0`.
proof fn lemma_sync_bwd_first(x: Seq<i16>, ix: int, y: Seq<i16>, iy: int, m: i64, from: int)
    requires
        0 <= from,
        ix < x.len(),
    ensures
        sync_bwd(x, ix, y, iy, m, from) != 0 ==> {
            let r = sync_bwd(x, ix, y, iy, m, from);
            &&& from <= r < m
            &&& resyncs_back(x, ix, y, iy, r)
            &&& forall|d: int| from <= d < r ==> !#[trigger] resyncs_back(x, ix, y, iy, d)
        },
        sync_bwd(x, ix, y, iy, m, from) == 0 ==> (from == 0 && resyncs_back(x, ix, y, iy, 0)) || forall|d: int|
            from <= d < m ==> !#[trigger] resyncs_back(x, ix, y, iy, d),
    decreases ix - from + 1,
{
    lemma_bwd_step(x, ix, y, iy, from);
    if from >= m {
    } else if ix - from < 0 {
        assert forall|d: int| from <= d < m implies !#[trigger] resyncs_back(x, ix, y, iy, d) by {
            if resyncs_back(x, ix, y, iy, d) {
                assert(agree_back_at(x, ix - d, y, iy, 0));
            }
        }
    } else if x[ix - from] == y[iy] && bwd_run(x, ix - from, y, iy) >= MIN_WORDS_RIFT {
    } else {
        lemma_sync_bwd_first(x, ix, y, iy, m, from + 1);
    }
}

/// The forward search finds the least distance (from `from`, within `m`)
/// at which `x` resyncs, and 0 only where none does or it is `from == 0`.
proof fn lemma_sync_fwd_first(x: Seq<i16>, ix: int, y: Seq<i16>, iy: int, m: i64, from: int)
    requires
        0 <= from,
        0 <= ix,
    ensures
        sync_fwd(x, ix, y, iy, m, from) != 0 ==> {
            let r = sync_fwd(x, ix, y, iy, m, from);
            &&& from <= r
            &&& within_limit(m, r)
            &&& resyncs_fwd(x, ix, y, iy, r)
            &&& forall|d: int| from <= d < r ==> !#[trigger] resyncs_fwd(x, ix, y, iy, d)
        },
        sync_fwd(x, ix, y, iy, m, from) == 0 ==> (from == 0 && resyncs_fwd(x, ix, y, iy, 0)) || forall|d: int|
            from <= d && within_limit(m, d) ==> !#[trigger] resyncs_fwd(x, ix, y, iy, d),
    decreases x.len() - (ix + from),
{
    lemma_fwd_step(x, ix, y, iy, from);
    if !within_limit(m, from) {
    } else if !in_seq(x, ix + from) {
        assert forall|d: int| from <= d && within_limit(m, d) implies !#[trigger] resyncs_fwd(x, ix, y, iy, d) by {
            if resyncs_fwd(x, ix, y, iy, d) {
                assert(agree_fwd_at(x, ix + d, y, iy, 0));
            }
        }
    } else if x[ix + from] == y[iy] && fwd_run(x, ix + from, y, iy) >= MIN_WORDS_RIFT {
    } else {
        lemma_sync_fwd_first(x, ix, y, iy, m, from + 1);
    }
}

/// Falling into step with no shift is the same seen from either block.
proof fn lemma_resync_zero_symmetric(a: Seq<i16>, ia: int, b: Seq<i16>, ib: int)
    ensures
        resyncs_back(a, ia, b, ib, 0) == resyncs_back(b, ib, a, ia, 0),
        resyncs_fwd(a, ia, b, ib, 0) == resyncs_fwd(b, ib, a, ia, 0),
{
    if resyncs_back(a, ia, b, ib, 0) {
        assert forall|k: int| 0 <= k < MIN_WORDS_RIFT implies #[trigger] agree_back_at(b, ib - 0, a, ia, k) by {
            assert(agree_back_at(a, ia - 0, b, ib, k));
        }
    }
    if resyncs_back(b, ib, a, ia, 0) {
        assert forall|k: int| 0 <= k < MIN_WORDS_RIFT implies #[trigger] agree_back_at(a, ia - 0, b, ib, k) by {
            assert(agree_back_at(b, ib - 0, a, ia, k));
        }
    }
    if resyncs_fwd(a, ia, b, ib, 0) {
        assert forall|k: int| 0 <= k < MIN_WORDS_RIFT implies #[trigger] agree_fwd_at(b, ib + 0, a, ia, k) by {
            assert(agree_fwd_at(a, ia + 0, b, ib, k));
        }
    }
    if resyncs_fwd(b, ib, a, ia, 0) {
        assert forall|k: int| 0 <= k < MIN_WORDS_RIFT implies #[trigger] agree_fwd_at(a, ia + 0, b, ib, k) by {
            assert(agree_fwd_at(b, ib + 0, a, ia, k));
        }
    }
}

/// Going back from a rift, the reported block is the one that falls back
/// into step: `DroppedFromA(n)` exactly when A, moved back `n` (the least
/// such distance, below `max_search`), agrees with B for `MIN_WORDS_RIFT`
/// samples and B moved back by no distance agrees with A; `DroppedFromB(n)`
/// the other way round; `Garbage` when both fall into step (at their least
/// distances, counted back from the starts).
pub proof fn lemma_rift_backward_resync(
    a: Seq<i16>,
    offset_a: i64,
    start_a: i64,
    b: Seq<i16>,
    offset_b: i64,
    start_b: i64,
    max_search: i64,
)
    requires
        max_search > 0 && start_a - offset_a >= 0 && start_b - offset_b >= 0 ==> (in_seq(a, start_a - offset_a)
            <==> in_seq(b, start_b - offset_b)),
    ensures
        ({
            let ia = start_a - offset_a;
            let ib = start_b - offset_b;
            let r = spec_rift_backward(a, offset_a, start_a, b, offset_b, start_b, max_search);
            &&& r matches RiftType::DroppedFromA(n) ==> {
                &&& 0 < n < max_search
                &&& resyncs_back(a, ia, b, ib, n as int)
                &&& forall|d: int| 0 <= d < n ==> !#[trigger] resyncs_back(a, ia, b, ib, d)
                &&& forall|d: int| 0 <= d < max_search ==> !#[trigger] resyncs_back(b, ib, a, ia, d)
            }
            &&& r matches RiftType::DroppedFromB(n) ==> {
                &&& 0 < n < max_search
                &&& resyncs_back(b, ib, a, ia, n as int)
                &&& forall|d: int| 0 <= d < n ==> !#[trigger] resyncs_back(b, ib, a, ia, d)
                &&& forall|d: int| 0 <= d < max_search ==> !#[trigger] resyncs_back(a, ia, b, ib, d)
            }
            &&& r matches RiftType::Garbage { sync_a, sync_b } ==> {
                &&& 0 < start_a - sync_a < max_search
                &&& 0 < start_b - sync_b < max_search
                &&& resyncs_back(a, ia, b, ib, start_a - sync_a)
                &&& resyncs_back(b, ib, a, ia, start_b - sync_b)
            }
        }),
{
    let ia = start_a - offset_a;
    let ib = start_b - offset_b;
    if ia >= 0 && ib >= 0 {
        let ma = if in_seq(b, ib) { sync_bwd(a, ia, b, ib, max_search, 0) } else { 0 };
        let mb = if in_seq(a, ia) { sync_bwd(b, ib, a, ia, max_search, 0) } else { 0 };
        lemma_resync_zero_symmetric(a, ia, b, ib);
        lemma_sync_bwd_range(a, ia, b, ib, max_search, 0);
        lemma_sync_bwd_range(b, ib, a, ia, max_search, 0);
        if ma != 0 || mb != 0 {
            assert(max_search > 0);
            assert(in_seq(a, ia) && in_seq(b, ib));
            lemma_sync_bwd_first(a, ia, b, ib, max_search, 0);
            lemma_sync_bwd_first(b, ib, a, ia, max_search, 0);
            assert(0 <= ma < max_search);
            assert(0 <= mb < max_search);
            assert(ma != 0 ==> !resyncs_back(a, ia, b, ib, 0));
            assert(mb != 0 ==> !resyncs_back(b, ib, a, ia, 0));
            if mb == 0 {
                assert(forall|d: int| 0 <= d < max_search ==> !#[trigger] resyncs_back(b, ib, a, ia, d));
                assert(spec_rift_backward(a, offset_a, start_a, b, offset_b, start_b, max_search)
                    == RiftType::DroppedFromA(ma as i64));
            } else if ma == 0 {
                assert(forall|d: int| 0 <= d < max_search ==> !#[trigger] resyncs_back(a, ia, b, ib, d));
                assert(spec_rift_backward(a, offset_a, start_a, b, offset_b, start_b, max_search)
                    == RiftType::DroppedFromB(mb as i64));
            } else {
                assert(spec_rift_backward(a, offset_a, start_a, b, offset_b, start_b, max_search) == (RiftType::Garbage {
                    sync_a: (start_a - ma) as i64,
                    sync_b: (start_b - mb) as i64,
                }));
                assert(0 <= ia - ma && 0 <= ib - mb);
            }
        }
    }
}

/// Going on from a rift, the reported block is the one that falls back
/// into step: `StutterInA(n)` exactly when A, moved on `n` (the least such
/// distance, within `max_search`), agrees with B for `MIN_WORDS_RIFT`
/// samples and B moved on by no distance agrees with A; `StutterInB(n)` the
/// other way round; `Garbage` when both fall into step (at their least
/// distances, counted on from the ends).
pub proof fn lemma_rift_forward_resync(
    a: Seq<i16>,
    offset_a: i64,
    end_a: i64,
    b: Seq<i16>,
    offset_b: i64,
    end_b: i64,
    max_search: i64,
)
    requires
        len_fits(a),
        len_fits(b),
        positions_fit(a, offset_a),
        positions_fit(b, offset_b),
    ensures
        ({
            let ia = end_a - offset_a;
            let ib = end_b - offset_b;
            let r = spec_rift_forward(a, offset_a, end_a, b, offset_b, end_b, max_search);
            &&& r matches RiftType::StutterInA(n) ==> {
                &&& 0 < n && within_limit(max_search, n as int)
                &&& resyncs_fwd(a, ia, b, ib, n as int)
                &&& forall|d: int| 0 <= d < n ==> !#[trigger] resyncs_fwd(a, ia, b, ib, d)
                &&& forall|d: int| 0 <= d && within_limit(max_search, d) ==> !#[trigger] resyncs_fwd(b, ib, a, ia, d)
            }
            &&& r matches RiftType::StutterInB(n) ==> {
                &&& 0 < n && within_limit(max_search, n as int)
                &&& resyncs_fwd(b, ib, a, ia, n as int)
                &&& forall|d: int| 0 <= d < n ==> !#[trigger] resyncs_fwd(b, ib, a, ia, d)
                &&& forall|d: int| 0 <= d && within_limit(max_search, d) ==> !#[trigger] resyncs_fwd(a, ia, b, ib, d)
            }
            &&& r matches RiftType::Garbage { sync_a, sync_b } ==> {
                &&& 0 < sync_a - end_a && 0 < sync_b - end_b
                &&& resyncs_fwd(a, ia, b, ib, sync_a - end_a)
                &&& resyncs_fwd(b, ib, a, ia, sync_b - end_b)
            }
        }),
{
    let ia = end_a - offset_a;
    let ib = end_b - offset_b;
    if in_seq(a, ia) && in_seq(b, ib) {
        let (ma, mb) = spec_stutter_or_gap(a, ia, b, ib, max_search);
        lemma_resync_zero_symmetric(a, ia, b, ib);
        lemma_sync_fwd_first(a, ia, b, ib, max_search, 0);
        lemma_sync_fwd_first(b, ib, a, ia, max_search, 0);
        lemma_sync_fwd_range(a, ia, b, ib, max_search, 0);
        lemma_sync_fwd_range(b, ib, a, ia, max_search, 0);
        assert(ma == sync_fwd(a, ia, b, ib, max_search, 0));
        assert(mb == sync_fwd(b, ib, a, ia, max_search, 0));
        assert(0 <= ma < a.len() && 0 <= mb < b.len());
        if ma != 0 && mb == 0 {
            assert(forall|d: int| 0 <= d && within_limit(max_search, d) ==> !#[trigger] resyncs_fwd(b, ib, a, ia, d));
            assert(spec_rift_forward(a, offset_a, end_a, b, offset_b, end_b, max_search) == RiftType::StutterInA(
                ma as i64,
            ));
        } else if ma == 0 && mb != 0 {
            assert(forall|d: int| 0 <= d && within_limit(max_search, d) ==> !#[trigger] resyncs_fwd(a, ia, b, ib, d));
            assert(spec_rift_forward(a, offset_a, end_a, b, offset_b, end_b, max_search) == RiftType::StutterInB(
                mb as i64,
            ));
        } else if ma != 0 && mb != 0 {
            assert(spec_rift_forward(a, offset_a, end_a, b, offset_b, end_b, max_search) == (RiftType::Garbage {
                sync_a: (end_a + ma) as i64,
                sync_b: (end_b + mb) as i64,
            }));
        }
    }
}

} // verus!
