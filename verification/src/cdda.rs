//! Disc layout logic of a CD drive: the table of contents, track lookups,
//! and the conversion of raw audio bytes to samples.
//!
//! The drive itself is accessed elsewhere; these functions decide what the
//! answers read from it mean.

use vstd::prelude::*;
use crate::constants::{MAXTRK, VERSION};
use crate::error::{Error, Result};
use crate::types::{Lsn, TocEntry, TrackNum};
use crate::seqs::filled;
use crate::overlap::{trunc_div, trunc_div_i64};

verus! {

/// The LSN that the drive reports for a track it cannot locate.
pub const CDIO_INVALID_LSN: Lsn = -45301;

/// The character of a decimal digit.
pub open spec fn digit_char(d: nat) -> char {
    (48 + d) as char
}

/// The decimal digits of `n`, most significant first, without leading
/// zeros ("0" for 0): how `Display` writes an unsigned integer.
pub open spec fn decimal_digits(n: nat) -> Seq<char>
    decreases n,
{
    if n < 10 {
        seq![digit_char(n)]
    } else {
        decimal_digits(n / 10).push(digit_char(n % 10))
    }
}

/// "Invalid LSN for track " followed by the track number in decimal.
pub open spec fn track_lsn_message(track: u8) -> Seq<char> {
    "Invalid LSN for track "@ + decimal_digits(track as nat)
}

/// Calls `format!` to build the message for a track whose start the drive
/// cannot locate: "Invalid LSN for track " and the track number, which
/// `Display` writes in decimal digits.
#[verifier::external_body]
fn invalid_track_lsn_message(track: u8) -> (r: String)
    ensures
        r@ == track_lsn_message(track),
{
    format!("Invalid LSN for track {track}")
}

/// The table of contents of a disc and the audio range derived from it.
#[derive(Debug, Clone)]
pub struct DiscToc {
    /// Number of tracks on disc
    pub tracks: TrackNum,
    /// Table of contents, one entry per track slot
    pub disc_toc: Vec<TocEntry>,
    /// Which tracks are audio
    pub track_is_audio: Vec<bool>,
    /// First audio sector
    pub audio_first_sector: Lsn,
    /// Last audio sector
    pub audio_last_sector: Lsn,
}

/// The index of the last track (counting from the first `n`) whose start is
/// at or before `lsn`.
pub open spec fn last_track_starting_by(toc: Seq<TocEntry>, n: int, lsn: Lsn) -> Option<int>
    decreases n,
{
    if n <= 0 {
        None
    } else if lsn >= toc[n - 1].start_sector {
        Some(n - 1)
    } else {
        last_track_starting_by(toc, n - 1, lsn)
    }
}

/// The sector lookup picks the last table entry (of the first `n`) that
/// starts at or before the sector: every later entry starts after it. It
/// finds none exactly when every entry starts after the sector.
pub proof fn lemma_sector_track_is_last_start(toc: Seq<TocEntry>, n: int, lsn: Lsn)
    requires
        0 <= n <= toc.len(),
    ensures
        last_track_starting_by(toc, n, lsn) matches Some(i) ==> {
            &&& 0 <= i < n
            &&& toc[i].start_sector <= lsn
            &&& forall|j: int| i < j < n ==> lsn < #[trigger] toc[j].start_sector
        },
        last_track_starting_by(toc, n, lsn) is None <==> forall|j: int| 0 <= j < n ==> lsn < #[trigger] toc[j].start_sector,
    decreases n,
{
    if n > 0 {
        lemma_sector_track_is_last_start(toc, n - 1, lsn);
    }
}

/// With track starts strictly increasing, the sector lookup of a track's
/// first sector gives that track's entry back.
pub proof fn lemma_first_sector_finds_its_track(toc: Seq<TocEntry>, n: int, t: int)
    requires
        0 <= t < n <= toc.len(),
        forall|i: int, j: int| 0 <= i < j < n ==> #[trigger] toc[i].start_sector < #[trigger] toc[j].start_sector,
    ensures
        last_track_starting_by(toc, n, toc[t].start_sector) == Some(t),
{
    let lsn = toc[t].start_sector;
    lemma_sector_track_is_last_start(toc, n, lsn);
    match last_track_starting_by(toc, n, lsn) {
        Some(i) => {
            if i < t {
                assert(lsn < toc[t].start_sector);
            } else if i > t {
                assert(toc[t].start_sector < toc[i].start_sector);
            }
        },
        None => {
            assert(lsn < toc[t].start_sector);
        },
    }
}

/// The default CD-ROM device path: none is known without a drive backend.
pub fn get_default_device() -> (r: Option<String>)
    ensures
        r is None,
{
    None
}

/// The version string of the drive interface.
pub fn version() -> (r: &'static str)
    ensures
        r == VERSION,
{
    VERSION
}

/// The length of each of `tracks` equal tracks between two sectors,
/// rounded toward zero.
pub open spec fn even_track_length(first_sector: Lsn, last_sector: Lsn, tracks: TrackNum) -> int {
    trunc_div(last_sector - first_sector, tracks as int)
}

/// Every track start of an even layout lies between the two sectors, so
/// fits where they do.
proof fn lemma_even_starts_fit(first: int, last: int, tracks: int)
    requires
        1 <= tracks,
        i32::MIN <= first <= i32::MAX,
        i32::MIN <= last <= i32::MAX,
    ensures
        forall|i: int|
            0 <= i < tracks ==> i32::MIN <= #[trigger] (first + i * trunc_div(last - first, tracks)) <= i32::MAX,
{
    let d = last - first;
    let q = trunc_div(d, tracks);
    assert forall|i: int| 0 <= i < tracks implies i32::MIN <= #[trigger] (first + i * trunc_div(last - first, tracks))
        <= i32::MAX by {
        if d >= 0 {
            assert(0 <= q && q * tracks <= d) by (nonlinear_arith)
                requires
                    d >= 0,
                    tracks >= 1,
                    q == d / tracks,
            ;
            assert(0 <= i * q <= q * tracks) by (nonlinear_arith)
                requires
                    0 <= i < tracks,
                    0 <= q,
            ;
        } else {
            let e = -d;
            assert(0 <= e / tracks && (e / tracks) * tracks <= e) by (nonlinear_arith)
                requires
                    e > 0,
                    tracks >= 1,
            ;
            assert(0 <= i * (e / tracks) <= (e / tracks) * tracks) by (nonlinear_arith)
                requires
                    0 <= i < tracks,
                    0 <= e / tracks,
            ;
            assert(i * q == -(i * (e / tracks))) by (nonlinear_arith)
                requires
                    q == -(e / tracks),
            ;
        }
    }
}

impl DiscToc {
    /// A slot for every possible track.
    pub open spec fn wf(&self) -> bool {
        &&& self.disc_toc@.len() == MAXTRK
        &&& self.track_is_audio@.len() == MAXTRK
    }

    /// Whether `track` names a track of the disc (1 up to the track count).
    pub open spec fn spec_valid_track(&self, track: TrackNum) -> bool {
        1 <= track <= self.tracks
    }

    /// An empty table: no tracks, every slot zero and not audio.
    pub fn new() -> (r: Self)
        ensures
            r.wf(),
            r.tracks == 0,
            r.disc_toc@ == Seq::new(MAXTRK as nat, |_i: int| TocEntry { track: 0, start_sector: 0 }),
            r.track_is_audio@ == Seq::new(MAXTRK as nat, |_i: int| false),
            r.audio_first_sector == 0,
            r.audio_last_sector == 0,
    {
        DiscToc {
            tracks: 0,
            disc_toc: filled(TocEntry { track: 0, start_sector: 0 }, MAXTRK),
            track_is_audio: filled(false, MAXTRK),
            audio_first_sector: 0,
            audio_last_sector: 0,
        }
    }

    /// Whether `track` names a track of the disc.
    pub fn valid_track(&self, track: TrackNum) -> (r: bool)
        ensures
            r == self.spec_valid_track(track),
    {
        track != 0 && track <= self.tracks
    }

    /// Fill the table from what the drive reports: the number of tracks, the
    /// first track's number, and for each track its start, whether it is
    /// audio, and its last sector. The audio range runs from the first audio
    /// track's start to the largest valid last sector of an audio track.
    /// As the drive is queried track by track, the table keeps what was
    /// filled in before an error.
    pub fn read_toc(
        &mut self,
        num_tracks: u8,
        first_track: u8,
        lsns: &[Lsn],
        is_audio: &[bool],
        last_lsns: &[Lsn],
    ) -> (r: Result<()>)
        requires
            old(self).wf(),
            lsns@.len() >= num_tracks,
            is_audio@.len() >= num_tracks,
            last_lsns@.len() >= num_tracks,
            num_tracks != 0 && num_tracks != 255 && first_track != 255 ==> num_tracks <= MAXTRK
                && first_track + num_tracks - 1 <= u8::MAX,
        ensures
            final(self).wf(),
            r is Ok ==> final(self).tracks <= MAXTRK,
            (num_tracks == 0 || num_tracks == 255) ==> (r matches Err(Error::NoAudioTracks)) && *final(self)
                == *old(self),
            !(num_tracks == 0 || num_tracks == 255) && first_track == 255 ==> (r matches Err(
                Error::TocReadError(m),
            ) && m@ == "Invalid first track"@) && final(self).tracks == num_tracks,
            !(num_tracks == 0 || num_tracks == 255) && first_track != 255 ==> {
                &&& final(self).tracks == num_tracks
                &&& (exists|i: int| 0 <= i < num_tracks && #[trigger] lsns@[i] == CDIO_INVALID_LSN) ==> (r matches Err(
                    Error::TocReadError(m),
                ) && exists|k: int|
                    0 <= k < num_tracks && #[trigger] lsns@[k] == CDIO_INVALID_LSN && (forall|j: int|
                        0 <= j < k ==> #[trigger] lsns@[j] != CDIO_INVALID_LSN) && m@ == track_lsn_message(
                        (first_track + k) as u8,
                    ))
                &&& (forall|i: int| 0 <= i < num_tracks ==> #[trigger] lsns@[i] != CDIO_INVALID_LSN) ==> {
                    &&& forall|i: int|
                        0 <= i < num_tracks ==> #[trigger] final(self).disc_toc@[i] == (TocEntry {
                            track: (first_track + i) as u8,
                            start_sector: lsns@[i],
                        }) && final(self).track_is_audio@[i] == is_audio@[i]
                    &&& (r is Ok <==> exists|i: int| 0 <= i < num_tracks && #[trigger] is_audio@[i])
                    &&& !(r is Ok) ==> (r matches Err(Error::NoAudioTracks))
                    &&& r is Ok ==> {
                        let k = first_audio(is_audio@, num_tracks as int);
                        &&& final(self).audio_first_sector == lsns@[k]
                        &&& final(self).audio_last_sector == max_audio_last(
                            is_audio@,
                            last_lsns@,
                            num_tracks as int,
                        )
                    }
                }
            },
    {
        if num_tracks == 0 || num_tracks == 255 {
            return Err(Error::NoAudioTracks);
        }
        self.tracks = num_tracks;
        if first_track == 255 {
            return Err(Error::TocReadError("Invalid first track".to_owned()));
        }
        let mut first_audio_sector: Option<Lsn> = None;
        let mut last_audio_sector: Lsn = 0;
        let n = num_tracks as usize;
        let mut i: usize = 0;
        while i < n
            invariant
                self.wf(),
                first_track != 255,
                n == num_tracks,
                n <= MAXTRK,
                first_track + n - 1 <= u8::MAX,
                i <= n,
                self.tracks == num_tracks,
                lsns@.len() >= n,
                is_audio@.len() >= n,
                last_lsns@.len() >= n,
                forall|j: int| 0 <= j < i ==> #[trigger] lsns@[j] != CDIO_INVALID_LSN,
                forall|j: int|
                    0 <= j < i ==> #[trigger] self.disc_toc@[j] == (TocEntry {
                        track: (first_track + j) as u8,
                        start_sector: lsns@[j],
                    }),
                forall|j: int| 0 <= j < i ==> #[trigger] self.track_is_audio@[j] == is_audio@[j],
                first_audio_upto(is_audio@, i as int) matches Some(k) ==> 0 <= k < i,
                first_audio_sector == match first_audio_upto(is_audio@, i as int) {
                    Some(k) => Some(lsns@[k]),
                    None => None::<Lsn>,
                },
                last_audio_sector == max_audio_last(is_audio@, last_lsns@, i as int),
            decreases n - i,
        {
            proof {
                lemma_first_audio_exists(is_audio@, i + 1);
            }
            let track_num = first_track + i as u8;
            let lsn = lsns[i];
            if lsn == CDIO_INVALID_LSN {
                return Err(Error::TocReadError(invalid_track_lsn_message(track_num)));
            }
            self.disc_toc.set(i, TocEntry { track: track_num, start_sector: lsn });
            let audio = is_audio[i];
            self.track_is_audio.set(i, audio);
            if audio {
                if first_audio_sector.is_none() {
                    first_audio_sector = Some(lsn);
                }
                let last_lsn = last_lsns[i];
                if last_lsn != CDIO_INVALID_LSN && last_lsn > last_audio_sector {
                    last_audio_sector = last_lsn;
                }
            }
            i = i + 1;
        }
        proof {
            lemma_first_audio_exists(is_audio@, n as int);
        }
        self.audio_first_sector = match first_audio_sector {
            Some(s) => s,
            None => 0,
        };
        self.audio_last_sector = last_audio_sector;
        if first_audio_sector.is_none() {
            return Err(Error::NoAudioTracks);
        }
        Ok(())
    }

    /// The first sector of a track.
    pub fn track_first_sector(&self, track: TrackNum) -> (r: Result<Lsn>)
        requires
            self.wf(),
            self.spec_valid_track(track) ==> track <= MAXTRK,
        ensures
            !self.spec_valid_track(track) ==> (r matches Err(Error::InvalidTrack(t)) && t == track),
            self.spec_valid_track(track) ==> (r matches Ok(s) && s == self.disc_toc@[track - 1].start_sector),
    {
        if track == 0 || track > self.tracks {
            return Err(Error::InvalidTrack(track));
        }
        Ok(self.disc_toc[(track - 1) as usize].start_sector)
    }

    /// The last sector of a track, from the table: the sector before the
    /// next track's start, or the last audio sector for the last track.
    pub fn track_last_sector(&self, track: TrackNum) -> (r: Result<Lsn>)
        requires
            self.wf(),
            self.spec_valid_track(track) && track < self.tracks ==> track < MAXTRK
                && self.disc_toc@[track as int].start_sector > i32::MIN,
        ensures
            !self.spec_valid_track(track) ==> (r matches Err(Error::InvalidTrack(t)) && t == track),
            self.spec_valid_track(track) ==> (r matches Ok(s) && s == if track == self.tracks {
                self.audio_last_sector as int
            } else {
                self.disc_toc@[track as int].start_sector - 1
            }),
    {
        if track == 0 || track > self.tracks {
            return Err(Error::InvalidTrack(track));
        }
        if track == self.tracks {
            Ok(self.audio_last_sector)
        } else {
            Ok(self.disc_toc[track as usize].start_sector - 1)
        }
    }

    /// The number of tracks.
    pub fn track_count(&self) -> (r: TrackNum)
        ensures
            r == self.tracks,
    {
        self.tracks
    }

    /// The track containing a sector: the last track (by table order) whose
    /// start is at or before it.
    pub fn sector_get_track(&self, lsn: Lsn) -> (r: Option<TrackNum>)
        requires
            self.wf(),
            self.tracks <= MAXTRK,
        ensures
            r == match last_track_starting_by(self.disc_toc@, self.tracks as int, lsn) {
                Some(i) => Some(self.disc_toc@[i].track),
                None => None,
            },
    {
        let mut i: usize = self.tracks as usize;
        while i > 0
            invariant
                self.wf(),
                self.tracks <= MAXTRK,
                i <= self.tracks,
                last_track_starting_by(self.disc_toc@, self.tracks as int, lsn) == last_track_starting_by(
                    self.disc_toc@,
                    i as int,
                    lsn,
                ),
            decreases i,
        {
            if lsn >= self.disc_toc[i - 1].start_sector {
                return Some(self.disc_toc[i - 1].track);
            }
            i = i - 1;
        }
        None
    }

    /// Whether a track is audio: false for an invalid track, and true for
    /// a valid one beyond the slots of the table.
    pub fn track_is_audio(&self, track: TrackNum) -> (r: bool)
        requires
            self.wf(),
        ensures
            r == (self.spec_valid_track(track) && (track > MAXTRK || self.track_is_audio@[track - 1])),
    {
        if track == 0 || track > self.tracks {
            return false;
        }
        let idx = (track - 1) as usize;
        if idx < self.track_is_audio.len() {
            self.track_is_audio[idx]
        } else {
            true
        }
    }

    /// The last sector of a track given the drive's own answer (`None`
    /// where the drive has none): an invalid track is an error, a valid
    /// answer other than `CDIO_INVALID_LSN` is taken, else the table's.
    pub fn track_last_sector_from(&self, track: TrackNum, reported: Option<Lsn>) -> (r: Result<Lsn>)
        requires
            self.wf(),
            self.spec_valid_track(track) && track < self.tracks && !(reported matches Some(l) && l
                != CDIO_INVALID_LSN) ==> track < MAXTRK && self.disc_toc@[track as int].start_sector > i32::MIN,
        ensures
            !self.spec_valid_track(track) ==> (r matches Err(Error::InvalidTrack(t)) && t == track),
            self.spec_valid_track(track) ==> (r matches Ok(s) && s == match reported {
                Some(l) => if l != CDIO_INVALID_LSN {
                    l as int
                } else if track == self.tracks {
                    self.audio_last_sector as int
                } else {
                    self.disc_toc@[track as int].start_sector - 1
                },
                None => if track == self.tracks {
                    self.audio_last_sector as int
                } else {
                    self.disc_toc@[track as int].start_sector - 1
                },
            }),
    {
        if track == 0 || track > self.tracks {
            return Err(Error::InvalidTrack(track));
        }
        match reported {
            Some(l) => {
                if l != CDIO_INVALID_LSN {
                    return Ok(l);
                }
            },
            None => {},
        }
        self.track_last_sector(track)
    }

    /// The track holding a sector given the drive's own answer (`None`
    /// where the drive has none): an answer other than 255 is taken, else
    /// the table's.
    pub fn sector_get_track_from(&self, lsn: Lsn, reported: Option<TrackNum>) -> (r: Option<TrackNum>)
        requires
            self.wf(),
            !(reported matches Some(t) && t != 255) ==> self.tracks <= MAXTRK,
        ensures
            r == match reported {
                Some(t) => if t != 255 {
                    Some(t)
                } else {
                    match last_track_starting_by(self.disc_toc@, self.tracks as int, lsn) {
                        Some(i) => Some(self.disc_toc@[i].track),
                        None => None,
                    }
                },
                None => match last_track_starting_by(self.disc_toc@, self.tracks as int, lsn) {
                    Some(i) => Some(self.disc_toc@[i].track),
                    None => None,
                },
            },
    {
        match reported {
            Some(t) => {
                if t != 255 {
                    return Some(t);
                }
            },
            None => {},
        }
        self.sector_get_track(lsn)
    }

    /// Whether a track is audio given the drive's own answer (`None` where
    /// the drive has none): false for an invalid track, else the drive's
    /// answer or the table's.
    pub fn track_is_audio_from(&self, track: TrackNum, reported: Option<bool>) -> (r: bool)
        requires
            self.wf(),
        ensures
            r == (self.spec_valid_track(track) && match reported {
                Some(a) => a,
                None => track > MAXTRK || self.track_is_audio@[track - 1],
            }),
    {
        if track == 0 || track > self.tracks {
            return false;
        }
        match reported {
            Some(a) => a,
            None => self.track_is_audio(track),
        }
    }

    /// The channel count of a track given the drive's own answer: 2 for an
    /// invalid track or without a positive answer.
    pub fn track_channels_from(&self, track: TrackNum, reported: Option<i32>) -> (r: i32)
        ensures
            r == if self.spec_valid_track(track) && (reported matches Some(c) && c > 0) {
                reported.unwrap()
            } else {
                2
            },
    {
        if track == 0 || track > self.tracks {
            return 2;
        }
        match reported {
            Some(c) => if c > 0 {
                c
            } else {
                2
            },
            None => 2,
        }
    }

    /// A track flag (copy permission or pre-emphasis) given the drive's own
    /// answer: -1 for an invalid track, else 1 or 0 as the drive answers,
    /// 0 without an answer.
    pub fn track_flag_from(&self, track: TrackNum, reported: Option<bool>) -> (r: i32)
        ensures
            r == if !self.spec_valid_track(track) {
                -1
            } else if reported == Some(true) {
                1
            } else {
                0
            },
    {
        if track == 0 || track > self.tracks {
            return -1;
        }
        match reported {
            Some(true) => 1,
            _ => 0,
        }
    }

    /// Lay out `tracks` audio tracks of equal length from `first_sector`:
    /// track `i + 1` starts `i` track lengths in, a track length being
    /// `(last_sector - first_sector) / tracks` rounded toward zero; the
    /// audio range runs from `first_sector` to `last_sector`. Slots past
    /// the last track keep what they held.
    pub fn set_even_tracks(&mut self, tracks: TrackNum, first_sector: Lsn, last_sector: Lsn)
        requires
            old(self).wf(),
            1 <= tracks <= MAXTRK,
            i32::MIN <= last_sector - first_sector <= i32::MAX,
        ensures
            final(self).wf(),
            final(self).tracks == tracks,
            final(self).audio_first_sector == first_sector,
            final(self).audio_last_sector == last_sector,
            forall|i: int|
                0 <= i < tracks ==> #[trigger] final(self).disc_toc@[i] == (TocEntry {
                    track: (i + 1) as u8,
                    start_sector: (first_sector + i * even_track_length(first_sector, last_sector, tracks)) as i32,
                }),
            forall|i: int| 0 <= i < tracks ==> #[trigger] final(self).track_is_audio@[i],
            forall|i: int| tracks <= i < MAXTRK ==> #[trigger] final(self).disc_toc@[i] == old(self).disc_toc@[i],
            forall|i: int| tracks <= i < MAXTRK ==> #[trigger] final(self).track_is_audio@[i]
                == old(self).track_is_audio@[i],
    {
        self.tracks = tracks;
        self.audio_first_sector = first_sector;
        self.audio_last_sector = last_sector;
        let span: i32 = last_sector - first_sector;
        let per_track: i64 = trunc_div_i64(span as i64, tracks as i64);
        let ghost q = even_track_length(first_sector, last_sector, tracks);
        proof {
            lemma_even_starts_fit(first_sector as int, last_sector as int, tracks as int);
        }
        let n = tracks as usize;
        let mut idx: usize = 0;
        while idx < n
            invariant
                self.wf(),
                n == tracks,
                1 <= tracks <= MAXTRK,
                idx <= n,
                per_track == q,
                q == even_track_length(first_sector, last_sector, tracks),
                forall|i: int| 0 <= i < tracks ==> i32::MIN <= #[trigger] (first_sector + i * q) <= i32::MAX,
                self.tracks == tracks,
                self.audio_first_sector == first_sector,
                self.audio_last_sector == last_sector,
                forall|i: int|
                    0 <= i < idx ==> #[trigger] self.disc_toc@[i] == (TocEntry {
                        track: (i + 1) as u8,
                        start_sector: (first_sector + i * q) as i32,
                    }),
                forall|i: int| 0 <= i < idx ==> #[trigger] self.track_is_audio@[i],
                forall|i: int| idx <= i < MAXTRK ==> #[trigger] self.disc_toc@[i] == old(self).disc_toc@[i],
                forall|i: int| idx <= i < MAXTRK ==> #[trigger] self.track_is_audio@[i] == old(self).track_is_audio@[i],
            decreases n - idx,
        {
            assert(i32::MIN <= first_sector + idx * q <= i32::MAX);
            let offset: i64 = idx as i64 * per_track;
            let start: i32 = (first_sector as i64 + offset) as i32;
            self.disc_toc.set(idx, TocEntry { track: (idx + 1) as u8, start_sector: start });
            self.track_is_audio.set(idx, true);
            idx = idx + 1;
        }
    }

    /// The first audio sector on the disc.
    pub fn disc_first_sector(&self) -> (r: Lsn)
        ensures
            r == self.audio_first_sector,
    {
        self.audio_first_sector
    }

    /// The last audio sector on the disc.
    pub fn disc_last_sector(&self) -> (r: Lsn)
        ensures
            r == self.audio_last_sector,
    {
        self.audio_last_sector
    }
}

/// The index of the first audio track among the first `n`.
pub open spec fn first_audio_upto(is_audio: Seq<bool>, n: int) -> Option<int>
    decreases n,
{
    if n <= 0 {
        None
    } else {
        match first_audio_upto(is_audio, n - 1) {
            Some(k) => Some(k),
            None => if is_audio[n - 1] { Some(n - 1) } else { None },
        }
    }
}

/// The index of the first audio track among the first `n` (0 if none).
pub open spec fn first_audio(is_audio: Seq<bool>, n: int) -> int {
    match first_audio_upto(is_audio, n) {
        Some(k) => k,
        None => 0,
    }
}

/// The largest valid last sector of an audio track among the first `n`,
/// and at least 0.
pub open spec fn max_audio_last(is_audio: Seq<bool>, last_lsns: Seq<Lsn>, n: int) -> Lsn
    decreases n,
{
    if n <= 0 {
        0
    } else {
        let m = max_audio_last(is_audio, last_lsns, n - 1);
        if is_audio[n - 1] && last_lsns[n - 1] != CDIO_INVALID_LSN && last_lsns[n - 1] > m {
            last_lsns[n - 1]
        } else {
            m
        }
    }
}

proof fn lemma_first_audio_exists(is_audio: Seq<bool>, n: int)
    requires
        0 <= n <= is_audio.len(),
    ensures
        first_audio_upto(is_audio, n) is Some <==> exists|i: int| 0 <= i < n && #[trigger] is_audio[i],
        first_audio_upto(is_audio, n) matches Some(k) ==> 0 <= k < n,
    decreases n,
{
    if n > 0 {
        lemma_first_audio_exists(is_audio, n - 1);
        if first_audio_upto(is_audio, n - 1) is None && is_audio[n - 1] {
            assert(is_audio[n - 1]);
        }
    }
}

/// The value of two little-endian bytes as a 16-bit sample.
pub open spec fn le_sample(lo: u8, hi: u8) -> i16 {
    let u = lo + 256 * hi;
    (if u >= 32768 { u - 65536 } else { u }) as i16
}

/// The samples of raw CD audio bytes: each pair of bytes is a 16-bit
/// little-endian sample, with its bytes exchanged when `swap` is set.
pub open spec fn samples_of_bytes(bytes: Seq<u8>, swap: bool) -> Seq<i16> {
    Seq::new(
        bytes.len() / 2,
        |i: int|
            if swap {
                le_sample(bytes[2 * i + 1], bytes[2 * i])
            } else {
                le_sample(bytes[2 * i], bytes[2 * i + 1])
            },
    )
}

fn le16(lo: u8, hi: u8) -> (r: i16)
    ensures
        r == le_sample(lo, hi),
{
    let u: i32 = lo as i32 + (hi as i32) * 256;
    let v: i32 = if u >= 32768 { u - 65536 } else { u };
    v as i16
}

/// Convert raw audio bytes to samples (a trailing odd byte is ignored).
pub fn samples_from_bytes(bytes: &[u8], swap: bool) -> (r: Vec<i16>)
    ensures
        r@ == samples_of_bytes(bytes@, swap),
{
    let len = bytes.len();
    let n = len / 2;
    let mut out: Vec<i16> = Vec::with_capacity(n);
    let mut i: usize = 0;
    while i < n
        invariant
            n == bytes@.len() / 2,
            2 * n <= bytes@.len(),
            bytes@.len() == bytes.len(),
            i <= n,
            out@ == samples_of_bytes(bytes@, swap).take(i as int),
        decreases n - i,
    {
        let lo = bytes[2 * i];
        let hi = bytes[2 * i + 1];
        let s = if swap { le16(hi, lo) } else { le16(lo, hi) };
        out.push(s);
        assert(out@ =~= samples_of_bytes(bytes@, swap).take(i + 1));
        i = i + 1;
    }
    assert(samples_of_bytes(bytes@, swap).take(n as int) =~= samples_of_bytes(bytes@, swap));
    out
}

} // verus!
