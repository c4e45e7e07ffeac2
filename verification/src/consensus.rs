//! Multi-read consensus voting for sample-level verification.
//!
//! When double-read verification fails, several reads of the same region
//! are collected and each sample is decided by majority vote.

use vstd::prelude::*;
use crate::types::{SampleFlags, SAMPLE_BLANKED_BIT, SAMPLE_EDGE_BIT, SAMPLE_VERIFIED_BIT};
use crate::gap::in_seq;
use crate::block::count_verified;
use crate::seqs::copy_all;

verus! {

/// Minimum number of reads needed for consensus voting.
pub const MIN_READS_FOR_CONSENSUS: usize = 3;

/// How often `v` occurs among the votes (`None` votes for nothing).
pub open spec fn vote_count(votes: Seq<Option<i16>>, v: i16) -> nat
    decreases votes.len(),
{
    if votes.len() == 0 {
        0
    } else {
        vote_count(votes.drop_last(), v) + if votes.last() == Some(v) { 1nat } else { 0nat }
    }
}

/// How many votes are cast (are not `None`).
pub open spec fn vote_total(votes: Seq<Option<i16>>) -> nat
    decreases votes.len(),
{
    if votes.len() == 0 {
        0
    } else {
        vote_total(votes.drop_last()) + if votes.last() is Some { 1nat } else { 0nat }
    }
}

/// The winner among the first `n` votes: the first value cast whose count
/// (over all votes) is the largest; `None` when no vote is cast.
pub open spec fn vote_winner(votes: Seq<Option<i16>>, n: int) -> Option<i16>
    decreases n,
{
    if n <= 0 {
        None
    } else {
        let prev = vote_winner(votes, n - 1);
        match votes[n - 1] {
            None => prev,
            Some(v) => match prev {
                None => Some(v),
                Some(b) => if vote_count(votes, v) > vote_count(votes, b) {
                    Some(v)
                } else {
                    prev
                },
            },
        }
    }
}

/// The winner among all votes.
pub open spec fn winner(votes: Seq<Option<i16>>) -> Option<i16> {
    vote_winner(votes, votes.len() as int)
}

/// The sample that a read gives for absolute position `pos`.
pub open spec fn read_value(r: ReadResult, pos: int) -> Option<i16> {
    let o = pos - r.jitter - r.begin;
    if in_seq(r.samples@, o) {
        Some(r.samples@[o])
    } else {
        None
    }
}

/// The votes of the reads for position `pos`.
pub open spec fn votes_at(reads: Seq<ReadResult>, pos: int) -> Seq<Option<i16>> {
    Seq::new(reads.len(), |i: int| read_value(reads[i], pos))
}

/// A vote of `votes` out of `total` is a majority (at least half).
pub open spec fn is_majority(votes: nat, total: nat) -> bool {
    2 * votes >= total
}

/// A vote of `votes` out of `total` has high confidence (at least three quarters).
pub open spec fn is_high_confidence(votes: nat, total: nat) -> bool {
    4 * votes >= 3 * total
}

/// The consensus flag for a position with the given votes.
pub open spec fn consensus_flag(votes: Seq<Option<i16>>) -> SampleFlags {
    match winner(votes) {
        Some(v) => {
            let c = vote_count(votes, v);
            let t = vote_total(votes);
            if is_high_confidence(c, t) {
                SampleFlags(SAMPLE_VERIFIED_BIT)
            } else if is_majority(c, t) {
                SampleFlags(SAMPLE_VERIFIED_BIT | SAMPLE_EDGE_BIT)
            } else {
                SampleFlags(0)
            }
        },
        None => SampleFlags(SAMPLE_BLANKED_BIT),
    }
}

/// A sample is flagged verified exactly when its winning value holds a
/// majority of the votes cast, blanked exactly when no read holds it, and
/// high confidence (the verified bit alone) exactly when the winner holds
/// three quarters of the votes.
pub proof fn lemma_flag_confidence(votes: Seq<Option<i16>>)
    ensures
        consensus_flag(votes).spec_verified() <==> (winner(votes) matches Some(v) && is_majority(
            vote_count(votes, v),
            vote_total(votes),
        )),
        consensus_flag(votes).spec_blanked() <==> winner(votes) is None,
        consensus_flag(votes) == SampleFlags(SAMPLE_VERIFIED_BIT) <==> (winner(votes) matches Some(v)
            && is_high_confidence(vote_count(votes, v), vote_total(votes))),
{
    match winner(votes) {
        Some(v) => {
            let c = vote_count(votes, v);
            let t = vote_total(votes);
            assert(0x04u8 & 0x04u8 != 0 && 0x05u8 & 0x04u8 != 0 && 0u8 & 0x04u8 == 0) by (bit_vector);
            assert(0x04u8 & 0x02u8 == 0 && 0x05u8 & 0x02u8 == 0 && 0u8 & 0x02u8 == 0) by (bit_vector);
            assert(0x04u8 | 0x01u8 == 0x05u8) by (bit_vector);
            if is_high_confidence(c, t) {
                assert(is_majority(c, t));
            }
        },
        None => {
            assert(0x02u8 & 0x04u8 == 0 && 0x02u8 & 0x02u8 != 0) by (bit_vector);
        },
    }
}

/// The consensus sample for a position with the given votes (0 when none).
pub open spec fn consensus_sample(votes: Seq<Option<i16>>) -> i16 {
    match winner(votes) {
        Some(v) => v,
        None => 0,
    }
}

/// A single read result for consensus building.
#[derive(Debug, Clone)]
pub struct ReadResult {
    /// Sample data from this read
    pub samples: Vec<i16>,
    /// Absolute position of first sample
    pub begin: i64,
    /// Jitter offset detected for this read (0 if aligned)
    pub jitter: i64,
}

impl ReadResult {
    /// Position arithmetic for `pos` stays inside `i64`.
    pub open spec fn get_defined(&self, pos: int) -> bool {
        &&& i64::MIN <= pos - self.jitter <= i64::MAX
        &&& i64::MIN <= pos - self.jitter - self.begin <= i64::MAX
    }

    /// Create a new read result.
    pub fn new(samples: Vec<i16>, begin: i64, jitter: i64) -> (r: Self)
        ensures
            r.samples@ == samples@,
            r.begin == begin,
            r.jitter == jitter,
    {
        ReadResult { samples, begin, jitter }
    }

    /// The sample at absolute position `pos`, accounting for jitter: the
    /// read's sample `pos - jitter - begin`.
    pub fn get(&self, pos: i64) -> (r: Option<i16>)
        requires
            self.get_defined(pos as int),
        ensures
            r == read_value(*self, pos as int),
    {
        let adjusted_pos = pos - self.jitter;
        let offset = adjusted_pos - self.begin;
        if offset >= 0 && (offset as u128) < (self.samples.len() as u128) {
            Some(self.samples[offset as usize])
        } else {
            None
        }
    }

    /// The end position.
    pub fn end(&self) -> (r: i64)
        requires
            self.begin + self.samples@.len() <= i64::MAX,
            self.samples@.len() <= i64::MAX,
        ensures
            r == self.begin + self.samples@.len(),
    {
        self.begin + self.samples.len() as i64
    }
}

/// The outcome of one vote: the winning value, its votes, and the votes cast.
pub struct Tally {
    /// The winning sample value
    pub value: i16,
    /// Number of reads that agreed on this value
    pub votes: usize,
    /// Number of reads that covered this position
    pub total: usize,
}

/// Count the votes: the winner, its count and the total.
fn tally(votes: &Vec<Option<i16>>) -> (r: Option<Tally>)
    ensures
        r is Some == winner(votes@) is Some,
        r matches Some(t) ==> {
            &&& Some(t.value) == winner(votes@)
            &&& t.votes == vote_count(votes@, t.value)
            &&& t.total == vote_total(votes@)
        },
{
    let n = votes.len();
    let mut best: Option<i16> = None;
    let mut best_count: usize = 0;
    let mut total: usize = 0;
    let mut i: usize = 0;
    while i < n
        invariant
            n == votes@.len(),
            i <= n,
            best == vote_winner(votes@, i as int),
            best matches Some(b) ==> best_count == vote_count(votes@, b),
            total == vote_total(votes@.take(i as int)),
            total <= i,
        decreases n - i,
    {
        proof {
            assert(votes@.take(i + 1).drop_last() =~= votes@.take(i as int));
        }
        match votes[i] {
            Some(v) => {
                total = total + 1;
                let c = count_votes(votes, v);
                match best {
                    None => {
                        best = Some(v);
                        best_count = c;
                    },
                    Some(_) => {
                        if c > best_count {
                            best = Some(v);
                            best_count = c;
                        }
                    },
                }
            },
            None => {},
        }
        i = i + 1;
    }
    proof {
        assert(votes@.take(n as int) =~= votes@);
    }
    match best {
        Some(v) => Some(Tally { value: v, votes: best_count, total }),
        None => None,
    }
}

/// How often `v` occurs among the votes.
fn count_votes(votes: &Vec<Option<i16>>, v: i16) -> (r: usize)
    ensures
        r == vote_count(votes@, v),
{
    let n = votes.len();
    let mut c: usize = 0;
    let mut i: usize = 0;
    while i < n
        invariant
            n == votes@.len(),
            i <= n,
            c <= i,
            c == vote_count(votes@.take(i as int), v),
        decreases n - i,
    {
        proof {
            assert(votes@.take(i + 1).drop_last() =~= votes@.take(i as int));
        }
        if votes[i] == Some(v) {
            c = c + 1;
        }
        i = i + 1;
    }
    proof {
        assert(votes@.take(n as int) =~= votes@);
    }
    c
}

/// Consensus builder: collects reads of a region and votes per sample.
#[derive(Debug)]
pub struct ConsensusBuilder {
    reads: Vec<ReadResult>,
    region_begin: i64,
    region_end: i64,
}

/// The reads a builder holds after taking the reads `added`, one by one,
/// with `add_read`.
pub open spec fn reads_after(start: Seq<ReadResult>, added: Seq<ReadResult>) -> Seq<ReadResult>
    decreases added.len(),
{
    if added.len() == 0 {
        start
    } else {
        reads_after(start, added.drop_last()).push(added.last())
    }
}

/// A new builder that takes `k` reads holds exactly those `k` reads, in
/// order; it has enough for a consensus exactly when `k` is at least
/// `MIN_READS_FOR_CONSENSUS`, and only then does a consensus come out.
pub proof fn lemma_reads_counted(rs: Seq<ReadResult>)
    ensures
        reads_after(Seq::empty(), rs) == rs,
        reads_after(Seq::empty(), rs).len() == rs.len(),
        (reads_after(Seq::empty(), rs).len() >= MIN_READS_FOR_CONSENSUS) == (rs.len() >= 3),
    decreases rs.len(),
{
    if rs.len() > 0 {
        lemma_reads_counted(rs.drop_last());
        assert(rs.drop_last().push(rs.last()) =~= rs);
    }
}

impl ConsensusBuilder {
    /// The reads collected so far.
    pub closed spec fn spec_reads(&self) -> Seq<ReadResult> {
        self.reads@
    }

    /// Start of the region.
    pub closed spec fn spec_region_begin(&self) -> i64 {
        self.region_begin
    }

    /// End (exclusive) of the region.
    pub closed spec fn spec_region_end(&self) -> i64 {
        self.region_end
    }

    /// Every read can be asked for every position of the region.
    pub open spec fn positions_ok(&self) -> bool {
        &&& self.spec_region_begin() <= self.spec_region_end()
        &&& self.spec_region_end() - self.spec_region_begin() <= i64::MAX
        &&& self.spec_region_end() - self.spec_region_begin() <= usize::MAX
        &&& forall|i: int, pos: int|
            0 <= i < self.spec_reads().len() && self.spec_region_begin() <= pos < self.spec_region_end()
                ==> #[trigger] self.spec_reads()[i].get_defined(pos)
    }

    /// The votes at position `pos`.
    pub open spec fn votes(&self, pos: int) -> Seq<Option<i16>> {
        votes_at(self.spec_reads(), pos)
    }

    /// Length of the region.
    pub open spec fn region_len(&self) -> int {
        self.spec_region_end() - self.spec_region_begin()
    }

    /// The consensus samples of the region.
    pub open spec fn spec_samples(&self) -> Seq<i16> {
        Seq::new(
            self.region_len() as nat,
            |i: int| consensus_sample(self.votes(self.spec_region_begin() + i)),
        )
    }

    /// The consensus flags of the region.
    pub open spec fn spec_flags(&self) -> Seq<SampleFlags> {
        Seq::new(
            self.region_len() as nat,
            |i: int| consensus_flag(self.votes(self.spec_region_begin() + i)),
        )
    }

    /// Create a new consensus builder for a region.
    pub fn new(region_begin: i64, region_end: i64) -> (r: Self)
        ensures
            r.spec_reads() == Seq::<ReadResult>::empty(),
            r.spec_region_begin() == region_begin,
            r.spec_region_end() == region_end,
    {
        ConsensusBuilder { reads: Vec::new(), region_begin, region_end }
    }

    /// Add a read result to the consensus.
    pub fn add_read(&mut self, result: ReadResult)
        ensures
            final(self).spec_reads() == old(self).spec_reads().push(result),
            final(self).spec_reads() == reads_after(old(self).spec_reads(), seq![result]),
            final(self).spec_region_begin() == old(self).spec_region_begin(),
            final(self).spec_region_end() == old(self).spec_region_end(),
    {
        let ghost start = self.spec_reads();
        let ghost added = seq![result];
        proof {
            assert(added.drop_last() =~= Seq::<ReadResult>::empty());
            assert(reads_after(start, added.drop_last()) == start);
            assert(added.last() == result);
        }
        self.reads.push(result);
    }

    /// The number of reads collected.
    pub fn read_count(&self) -> (r: usize)
        ensures
            r == self.spec_reads().len(),
    {
        self.reads.len()
    }

    /// Whether there are enough reads for consensus.
    pub fn has_enough_reads(&self) -> (r: bool)
        ensures
            r == (self.spec_reads().len() >= MIN_READS_FOR_CONSENSUS),
    {
        self.reads.len() >= MIN_READS_FOR_CONSENSUS
    }

    /// The votes of all reads at `pos`.
    fn collect_votes(&self, pos: i64) -> (r: Vec<Option<i16>>)
        requires
            forall|i: int| 0 <= i < self.spec_reads().len() ==> #[trigger] self.spec_reads()[i].get_defined(pos as int),
        ensures
            r@ == self.votes(pos as int),
    {
        let mut out: Vec<Option<i16>> = Vec::new();
        let mut i: usize = 0;
        while i < self.reads.len()
            invariant
                i <= self.reads@.len(),
                forall|j: int| 0 <= j < self.spec_reads().len() ==> #[trigger] self.spec_reads()[j].get_defined(pos as int),
                out@ == votes_at(self.reads@.take(i as int), pos as int),
            decreases self.reads@.len() - i,
        {
            assert(self.spec_reads()[i as int].get_defined(pos as int));
            let v = self.reads[i].get(pos);
            out.push(v);
            assert(out@ =~= votes_at(self.reads@.take(i + 1), pos as int));
            i = i + 1;
        }
        assert(self.reads@.take(self.reads@.len() as int) =~= self.reads@);
        out
    }

    /// Vote on one position: the winner with its votes and the total.
    fn vote_sample(&self, pos: i64) -> (r: Option<Tally>)
        requires
            forall|i: int| 0 <= i < self.spec_reads().len() ==> #[trigger] self.spec_reads()[i].get_defined(pos as int),
        ensures
            r is Some == winner(self.votes(pos as int)) is Some,
            r matches Some(t) ==> {
                &&& Some(t.value) == winner(self.votes(pos as int))
                &&& t.votes == vote_count(self.votes(pos as int), t.value)
                &&& t.total == vote_total(self.votes(pos as int))
            },
    {
        let votes = self.collect_votes(pos);
        tally(&votes)
    }

    /// Build the consensus for the whole region: per position the winning
    /// sample (0 where no read covers it) and a flag (verified for at least
    /// three quarters agreement, verified and edge for a majority, none
    /// below, blanked where no read covers). `None` with fewer than
    /// `MIN_READS_FOR_CONSENSUS` reads.
    pub fn build_consensus(&self) -> (r: Option<(Vec<i16>, Vec<SampleFlags>)>)
        requires
            self.positions_ok(),
        ensures
            r is Some == (self.spec_reads().len() >= MIN_READS_FOR_CONSENSUS),
            r matches Some(p) ==> p.0@ == self.spec_samples() && p.1@ == self.spec_flags(),
    {
        if !self.has_enough_reads() {
            return None;
        }
        let len = (self.region_end - self.region_begin) as usize;
        let mut samples: Vec<i16> = Vec::with_capacity(len);
        let mut flags: Vec<SampleFlags> = Vec::with_capacity(len);
        let mut i: usize = 0;
        while i < len
            invariant
                self.positions_ok(),
                len == self.region_len(),
                i <= len,
                samples@.len() == i,
                flags@.len() == i,
                forall|k: int| 0 <= k < i ==> #[trigger] samples@[k] == self.spec_samples()[k],
                forall|k: int| 0 <= k < i ==> #[trigger] flags@[k] == self.spec_flags()[k],
            decreases len - i,
        {
            let pos = self.region_begin + i as i64;
            proof {
                assert forall|j: int| 0 <= j < self.spec_reads().len() implies #[trigger] self.spec_reads()[j].get_defined(pos as int) by {
                    assert(self.spec_reads()[j].get_defined(pos as int));
                }
            }
            match self.vote_sample(pos) {
                Some(vote) => {
                    samples.push(vote.value);
                    let c = vote.votes as u128;
                    let t = vote.total as u128;
                    let flag = if 4 * c >= 3 * t {
                        SampleFlags(SAMPLE_VERIFIED_BIT)
                    } else if 2 * c >= t {
                        SampleFlags(SAMPLE_VERIFIED_BIT | SAMPLE_EDGE_BIT)
                    } else {
                        SampleFlags(0)
                    };
                    flags.push(flag);
                },
                None => {
                    samples.push(0);
                    flags.push(SampleFlags(SAMPLE_BLANKED_BIT));
                },
            }
            i = i + 1;
        }
        assert(samples@ =~= self.spec_samples());
        assert(flags@ =~= self.spec_flags());
        Some((samples, flags))
    }

    /// Build the consensus and count verified, high-confidence and blanked
    /// samples.
    pub fn build_with_stats(&self) -> (r: Option<ConsensusResult>)
        requires
            self.positions_ok(),
        ensures
            r is Some == (self.spec_reads().len() >= MIN_READS_FOR_CONSENSUS),
            r matches Some(c) ==> {
                &&& c.samples@ == self.spec_samples()
                &&& c.flags@ == self.spec_flags()
                &&& c.begin == self.spec_region_begin()
                &&& c.read_count == self.spec_reads().len()
                &&& c.verified_count == count_verified(c.flags@)
                &&& c.high_confidence_count == count_exact(c.flags@, SAMPLE_VERIFIED_BIT)
                &&& c.blanked_count == count_blanked(c.flags@)
            },
    {
        let built = self.build_consensus();
        match built {
            None => None,
            Some((samples, flags)) => {
                let verified_count = count_flags_verified(&flags);
                let high_confidence_count = count_flags_exact(&flags, SAMPLE_VERIFIED_BIT);
                let blanked_count = count_flags_blanked(&flags);
                Some(ConsensusResult {
                    samples,
                    flags,
                    begin: self.region_begin,
                    read_count: self.reads.len(),
                    verified_count,
                    high_confidence_count,
                    blanked_count,
                })
            },
        }
    }

    /// The positions of the region where a vote exists but is no majority.
    pub fn find_disagreements(&self) -> (r: Vec<i64>)
        requires
            self.positions_ok(),
        ensures
            r@ == disagreements(self, 0, self.region_len()),
    {
        let len = (self.region_end - self.region_begin) as usize;
        let mut out: Vec<i64> = Vec::new();
        let mut i: usize = 0;
        while i < len
            invariant
                self.positions_ok(),
                len == self.region_len(),
                i <= len,
                out@ == disagreements(self, 0, i as int),
            decreases len - i,
        {
            let pos = self.region_begin + i as i64;
            proof {
                assert forall|j: int| 0 <= j < self.spec_reads().len() implies #[trigger] self.spec_reads()[j].get_defined(pos as int) by {
                    assert(self.spec_reads()[j].get_defined(pos as int));
                }
            }
            match self.vote_sample(pos) {
                Some(vote) => {
                    let c = vote.votes as u128;
                    let t = vote.total as u128;
                    if !(2 * c >= t) {
                        out.push(pos);
                    }
                },
                None => {},
            }
            i = i + 1;
        }
        out
    }
}

/// The positions `region_begin + k` for `from <= k < to` where the vote
/// winner has no majority.
pub open spec fn disagreements(b: &ConsensusBuilder, from: int, to: int) -> Seq<i64>
    decreases to - from,
{
    if to <= from {
        Seq::empty()
    } else {
        let pos = b.spec_region_begin() + to - 1;
        let rest = disagreements(b, from, to - 1);
        match winner(b.votes(pos)) {
            Some(v) => if !is_majority(vote_count(b.votes(pos), v), vote_total(b.votes(pos))) {
                rest.push(pos as i64)
            } else {
                rest
            },
            None => rest,
        }
    }
}

/// The consensus at `pos` disagrees: some read covers the position, and
/// the winning value holds no majority of the votes cast.
pub open spec fn disagrees_at(b: &ConsensusBuilder, pos: int) -> bool {
    &&& exists|i: int| 0 <= i < b.spec_reads().len() && (#[trigger] read_value(b.spec_reads()[i], pos)) is Some
    &&& match winner(b.votes(pos)) {
        Some(v) => !is_majority(vote_count(b.votes(pos), v), vote_total(b.votes(pos))),
        None => false,
    }
}

/// There is a winner exactly when some vote is cast.
proof fn lemma_vote_winner_cast(votes: Seq<Option<i16>>, n: int)
    requires
        0 <= n <= votes.len(),
    ensures
        vote_winner(votes, n) is Some <==> exists|k: int| 0 <= k < n && (#[trigger] votes[k]) is Some,
    decreases n,
{
    if n > 0 {
        lemma_vote_winner_cast(votes, n - 1);
        if votes[n - 1] is Some {
            assert(vote_winner(votes, n) is Some);
        } else {
            assert forall|k: int| 0 <= k < n && (#[trigger] votes[k]) is Some implies k < n - 1 by {}
        }
    }
}

/// The disagreements are exactly the positions of the region (its first
/// `n`) where the consensus disagrees, each once and in increasing order;
/// for a region whose consensus can be built, exactly the positions whose
/// consensus flag is none at all.
pub proof fn lemma_disagreements_exact(b: &ConsensusBuilder, n: int)
    requires
        0 <= n,
        b.spec_region_begin() + n <= i64::MAX + 1,
    ensures
        forall|i: int, j: int|
            0 <= i < j < disagreements(b, 0, n).len() ==> #[trigger] disagreements(b, 0, n)[i]
                < #[trigger] disagreements(b, 0, n)[j],
        forall|i: int|
            0 <= i < disagreements(b, 0, n).len() ==> {
                let p = #[trigger] disagreements(b, 0, n)[i];
                &&& b.spec_region_begin() <= p < b.spec_region_begin() + n
                &&& disagrees_at(b, p as int)
            },
        forall|p: int|
            b.spec_region_begin() <= p < b.spec_region_begin() + n && #[trigger] disagrees_at(b, p)
                ==> disagreements(b, 0, n).contains(p as i64),
        n <= b.region_len() ==> forall|p: int|
            b.spec_region_begin() <= p < b.spec_region_begin() + n ==> (#[trigger] disagrees_at(b, p)
                <==> b.spec_flags()[p - b.spec_region_begin()] == SampleFlags(0)),
    decreases n,
{
    let begin = b.spec_region_begin();
    assert forall|p: int| #[trigger] disagrees_at(b, p) <==> (match winner(b.votes(p)) {
        Some(v) => !is_majority(vote_count(b.votes(p), v), vote_total(b.votes(p))),
        None => false,
    }) by {
        let votes = b.votes(p);
        lemma_vote_winner_cast(votes, votes.len() as int);
        if winner(votes) is Some {
            let k = choose|k: int| 0 <= k < votes.len() && (#[trigger] votes[k]) is Some;
            assert(read_value(b.spec_reads()[k], p) is Some);
        }
    }
    assert forall|p: int| b.spec_region_begin() <= p < b.spec_region_begin() + n && n <= b.region_len() implies (
    #[trigger] disagrees_at(b, p) <==> b.spec_flags()[p - b.spec_region_begin()] == SampleFlags(0)) by {
        let votes = b.votes(p);
        assert(b.spec_flags()[p - begin] == consensus_flag(b.votes(begin + (p - begin))));
        assert(begin + (p - begin) == p);
        assert(0x04u8 != 0u8 && 0x05u8 != 0u8 && 0x02u8 != 0u8 && (0x04u8 | 0x01u8) == 0x05u8) by (bit_vector);
        match winner(votes) {
            Some(v) => {
                if is_high_confidence(vote_count(votes, v), vote_total(votes)) {
                    assert(is_majority(vote_count(votes, v), vote_total(votes)));
                }
            },
            None => {},
        }
    }
    if n > 0 {
        lemma_disagreements_exact(b, n - 1);
        let pos = begin + n - 1;
        let rest = disagreements(b, 0, n - 1);
        let d = disagreements(b, 0, n);
        if disagrees_at(b, pos) {
            assert(d == rest.push(pos as i64));
            assert(d[rest.len() as int] == pos as i64);
            assert forall|p: int| begin <= p < begin + n && #[trigger] disagrees_at(b, p) implies d.contains(
                p as i64,
            ) by {
                if p < pos {
                    let k = choose|k: int| 0 <= k < rest.len() && rest[k] == p as i64;
                    assert(d[k] == p as i64);
                } else {
                    assert(d[rest.len() as int] == p as i64);
                }
            }
        } else {
            assert(d == rest);
        }
    }
}

/// Number of flags equal to exactly `bits`.
pub open spec fn count_exact(flags: Seq<SampleFlags>, bits: u8) -> nat
    decreases flags.len(),
{
    if flags.len() == 0 {
        0
    } else {
        count_exact(flags.drop_last(), bits) + if flags.last().0 == bits { 1nat } else { 0nat }
    }
}

/// Number of blanked flags.
pub open spec fn count_blanked(flags: Seq<SampleFlags>) -> nat
    decreases flags.len(),
{
    if flags.len() == 0 {
        0
    } else {
        count_blanked(flags.drop_last()) + if flags.last().spec_blanked() { 1nat } else { 0nat }
    }
}

fn count_flags_verified(flags: &Vec<SampleFlags>) -> (r: usize)
    ensures
        r == count_verified(flags@),
{
    let mut n: usize = 0;
    let mut k: usize = 0;
    while k < flags.len()
        invariant
            k <= flags@.len(),
            n <= k,
            n == count_verified(flags@.take(k as int)),
        decreases flags@.len() - k,
    {
        proof {
            assert(flags@.take(k + 1).drop_last() =~= flags@.take(k as int));
        }
        if flags[k].is_verified() {
            n = n + 1;
        }
        k = k + 1;
    }
    assert(flags@.take(flags@.len() as int) =~= flags@);
    n
}

fn count_flags_exact(flags: &Vec<SampleFlags>, bits: u8) -> (r: usize)
    ensures
        r == count_exact(flags@, bits),
{
    let mut n: usize = 0;
    let mut k: usize = 0;
    while k < flags.len()
        invariant
            k <= flags@.len(),
            n <= k,
            n == count_exact(flags@.take(k as int), bits),
        decreases flags@.len() - k,
    {
        proof {
            assert(flags@.take(k + 1).drop_last() =~= flags@.take(k as int));
        }
        if flags[k].0 == bits {
            n = n + 1;
        }
        k = k + 1;
    }
    assert(flags@.take(flags@.len() as int) =~= flags@);
    n
}

fn count_flags_blanked(flags: &Vec<SampleFlags>) -> (r: usize)
    ensures
        r == count_blanked(flags@),
{
    let mut n: usize = 0;
    let mut k: usize = 0;
    while k < flags.len()
        invariant
            k <= flags@.len(),
            n <= k,
            n == count_blanked(flags@.take(k as int)),
        decreases flags@.len() - k,
    {
        proof {
            assert(flags@.take(k + 1).drop_last() =~= flags@.take(k as int));
        }
        if flags[k].is_blanked() {
            n = n + 1;
        }
        k = k + 1;
    }
    assert(flags@.take(flags@.len() as int) =~= flags@);
    n
}

/// Result of consensus building with statistics.
#[derive(Debug)]
pub struct ConsensusResult {
    /// Consensus sample values
    pub samples: Vec<i16>,
    /// Per-sample flags
    pub flags: Vec<SampleFlags>,
    /// Start position
    pub begin: i64,
    /// Number of reads used
    pub read_count: usize,
    /// Number of verified samples
    pub verified_count: usize,
    /// Number of high-confidence samples
    pub high_confidence_count: usize,
    /// Number of blanked (missing) samples
    pub blanked_count: usize,
}

impl ConsensusResult {
    /// The end position.
    pub fn end(&self) -> (r: i64)
        requires
            self.begin + self.samples@.len() <= i64::MAX,
            self.samples@.len() <= i64::MAX,
        ensures
            r == self.begin + self.samples@.len(),
    {
        self.begin + self.samples.len() as i64
    }

    /// Whether the consensus is acceptable: at least 90% of the samples
    /// are verified (never for an empty result).
    pub fn is_acceptable(&self) -> (r: bool)
        ensures
            r == (self.samples@.len() > 0 && 10 * self.verified_count >= 9 * self.samples@.len()),
    {
        let n = self.samples.len();
        if n == 0 {
            return false;
        }
        (self.verified_count as u128) * 10 >= (n as u128) * 9
    }
}

/// The indices below the shorter length where two reads differ, in order.
pub open spec fn mismatches(a: Seq<i16>, b: Seq<i16>, n: int) -> Seq<usize>
    decreases n,
{
    if n <= 0 {
        Seq::empty()
    } else if a[n - 1] != b[n - 1] {
        mismatches(a, b, n - 1).push((n - 1) as usize)
    } else {
        mismatches(a, b, n - 1)
    }
}

/// Quick consensus check between two reads: the positions where they
/// disagree (over the shorter length).
pub fn find_mismatches(read1: &[i16], read2: &[i16]) -> (r: Vec<usize>)
    ensures
        r@ == mismatches(
            read1@,
            read2@,
            if read1@.len() < read2@.len() { read1@.len() as int } else { read2@.len() as int },
        ),
{
    let n = if read1.len() < read2.len() { read1.len() } else { read2.len() };
    let mut out: Vec<usize> = Vec::new();
    let mut i: usize = 0;
    while i < n
        invariant
            n <= read1@.len(),
            n <= read2@.len(),
            i <= n,
            out@ == mismatches(read1@, read2@, i as int),
        decreases n - i,
    {
        if read1[i] != read2[i] {
            out.push(i);
        }
        i = i + 1;
    }
    out
}

/// Vote between three samples: the majority value, or `a` if all differ.
pub fn vote_three(a: i16, b: i16, c: i16) -> (r: i16)
    ensures
        r == if a == b || a == c {
            a
        } else if b == c {
            b
        } else {
            a
        },
{
    if a == b || a == c {
        a
    } else if b == c {
        b
    } else {
        a
    }
}

/// The votes of equal-length reads at index `i`.
pub open spec fn column(reads: Seq<&[i16]>, i: int) -> Seq<Option<i16>> {
    Seq::new(reads.len(), |k: int| Some(reads[k]@[i]))
}

/// Sample-by-sample voting between reads of equal length: `None` when there
/// are no reads or their lengths differ, else per index the winning value.
pub fn vote_samples(reads: &[&[i16]]) -> (r: Option<Vec<i16>>)
    ensures
        r is Some == (reads@.len() > 0 && forall|k: int| 0 <= k < reads@.len() ==> (#[trigger] reads@[k])@.len()
            == reads@[0]@.len()),
        r matches Some(v) ==> v@.len() == reads@[0]@.len() && forall|i: int|
            0 <= i < v@.len() ==> Some(#[trigger] v@[i]) == winner(column(reads@, i)),
{
    if reads.len() == 0 {
        return None;
    }
    let len = reads[0].len();
    let mut k: usize = 0;
    while k < reads.len()
        invariant
            k <= reads@.len(),
            reads@.len() > 0,
            len == reads@[0]@.len(),
            forall|j: int| 0 <= j < k ==> (#[trigger] reads@[j])@.len() == len,
        decreases reads@.len() - k,
    {
        if reads[k].len() != len {
            assert(reads@[k as int]@.len() != reads@[0]@.len());
            return None;
        }
        k = k + 1;
    }
    let mut result: Vec<i16> = Vec::with_capacity(len);
    let mut i: usize = 0;
    while i < len
        invariant
            i <= len,
            reads@.len() > 0,
            len == reads@[0]@.len(),
            forall|j: int| 0 <= j < reads@.len() ==> (#[trigger] reads@[j])@.len() == len,
            result@.len() == i,
            forall|t: int| 0 <= t < i ==> Some(#[trigger] result@[t]) == winner(column(reads@, t)),
        decreases len - i,
    {
        let mut votes: Vec<Option<i16>> = Vec::new();
        let mut k: usize = 0;
        while k < reads.len()
            invariant
                k <= reads@.len(),
                i < len,
                forall|j: int| 0 <= j < reads@.len() ==> (#[trigger] reads@[j])@.len() == len,
                votes@ == column(reads@, i as int).take(k as int),
            decreases reads@.len() - k,
        {
            votes.push(Some(reads[k][i]));
            assert(votes@ =~= column(reads@, i as int).take(k + 1));
            k = k + 1;
        }
        assert(votes@ =~= column(reads@, i as int));
        let t = tally(&votes);
        proof {
            lemma_winner_some(votes@);
        }
        match t {
            Some(t) => result.push(t.value),
            None => result.push(0),
        }
        i = i + 1;
    }
    Some(result)
}

/// With every vote cast and at least one vote, there is a winner.
proof fn lemma_winner_some(votes: Seq<Option<i16>>)
    requires
        votes.len() > 0,
        forall|k: int| 0 <= k < votes.len() ==> (#[trigger] votes[k]) is Some,
    ensures
        winner(votes) is Some,
{
    lemma_vote_winner_some(votes, votes.len() as int);
}

proof fn lemma_vote_winner_some(votes: Seq<Option<i16>>, n: int)
    requires
        0 < n <= votes.len(),
        forall|k: int| 0 <= k < votes.len() ==> (#[trigger] votes[k]) is Some,
    ensures
        vote_winner(votes, n) is Some,
    decreases n,
{
    if n > 1 {
        lemma_vote_winner_some(votes, n - 1);
    }
    assert(votes[n - 1] is Some);
}

proof fn lemma_vote_winner_is_max(votes: Seq<Option<i16>>, n: int)
    requires
        0 <= n <= votes.len(),
    ensures
        vote_winner(votes, n) matches Some(w) ==> forall|k: int|
            0 <= k < n && (#[trigger] votes[k]) is Some ==> vote_count(votes, votes[k]->0) <= vote_count(votes, w),
        vote_winner(votes, n) matches Some(w) ==> exists|k: int| 0 <= k < n && #[trigger] votes[k] == Some(w),
        vote_winner(votes, n) is None ==> forall|k: int| 0 <= k < n ==> (#[trigger] votes[k]) is None,
    decreases n,
{
    if n > 0 {
        lemma_vote_winner_is_max(votes, n - 1);
        let prev = vote_winner(votes, n - 1);
        match votes[n - 1] {
            None => {},
            Some(v) => {
                match prev {
                    None => {},
                    Some(b) => {
                        if vote_count(votes, v) > vote_count(votes, b) {
                        } else {
                            let k0 = choose|k: int| 0 <= k < n - 1 && #[trigger] votes[k] == Some(b);
                            assert(votes[k0] == Some(b));
                        }
                    },
                }
            },
        }
    }
}

/// Majority wins: the consensus value is one that some read gave, and no
/// value was given by more reads than it.
pub proof fn lemma_winner_has_most_votes(votes: Seq<Option<i16>>)
    ensures
        winner(votes) matches Some(w) ==> (exists|k: int| 0 <= k < votes.len() && #[trigger] votes[k] == Some(w))
            && forall|v: i16| (exists|k: int| 0 <= k < votes.len() && #[trigger] votes[k] == Some(v)) ==> vote_count(votes, v)
            <= vote_count(votes, w),
        winner(votes) is None ==> forall|k: int| 0 <= k < votes.len() ==> (#[trigger] votes[k]) is None,
{
    lemma_vote_winner_is_max(votes, votes.len() as int);
    if winner(votes) is Some {
        let w = winner(votes)->0;
        assert forall|v: i16| (exists|k: int| 0 <= k < votes.len() && #[trigger] votes[k] == Some(v)) implies vote_count(votes, v)
            <= vote_count(votes, w) by {
            let k = choose|k: int| 0 <= k < votes.len() && #[trigger] votes[k] == Some(v);
            assert(votes[k] is Some);
        }
    }
}

proof fn lemma_unanimous_counts(votes: Seq<Option<i16>>, v: i16)
    requires
        forall|k: int| 0 <= k < votes.len() ==> #[trigger] votes[k] == Some(v),
    ensures
        vote_count(votes, v) == votes.len(),
        vote_total(votes) == votes.len(),
    decreases votes.len(),
{
    if votes.len() > 0 {
        let d = votes.drop_last();
        assert forall|k: int| 0 <= k < d.len() implies #[trigger] d[k] == Some(v) by {
            assert(votes[k] == Some(v));
        }
        lemma_unanimous_counts(d, v);
    }
}

/// Reads that all cover a position and agree on it make a verified
/// consensus sample of that value.
pub proof fn lemma_unanimous_reads_verified(votes: Seq<Option<i16>>, v: i16)
    requires
        votes.len() > 0,
        forall|k: int| 0 <= k < votes.len() ==> #[trigger] votes[k] == Some(v),
    ensures
        winner(votes) == Some(v),
        consensus_sample(votes) == v,
        consensus_flag(votes) == SampleFlags(SAMPLE_VERIFIED_BIT),
{
    lemma_unanimous_counts(votes, v);
    lemma_winner_has_most_votes(votes);
    assert(votes[0] == Some(v));
    if winner(votes) is Some {
        let w = winner(votes)->0;
        let k = choose|k: int| 0 <= k < votes.len() && #[trigger] votes[k] == Some(w);
        assert(votes[k] == Some(v));
    }
}

/// Three-way voting agrees with general voting: the winner among the votes
/// `a`, `b`, `c` is `vote_three(a, b, c)`'s value.
pub proof fn lemma_vote_three_is_winner(a: i16, b: i16, c: i16)
    ensures
        winner(seq![Some(a), Some(b), Some(c)]) == Some(
            if a == b || a == c {
                a
            } else if b == c {
                b
            } else {
                a
            },
        ),
{
    let votes = seq![Some(a), Some(b), Some(c)];
    reveal_with_fuel(vote_count, 4);
    reveal_with_fuel(vote_winner, 4);
    assert(votes.drop_last() =~= seq![Some(a), Some(b)]);
    assert(votes.drop_last().drop_last() =~= seq![Some(a)]);
    assert(votes.drop_last().drop_last().drop_last() =~= Seq::<Option<i16>>::empty());
}

} // verus!
