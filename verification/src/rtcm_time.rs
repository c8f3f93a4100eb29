//! Resolving the epoch of an RTCM observation message.
//!
//! A message tells the time within a week, or within a day for GLONASS. Which
//! week it was follows from a constraint or from the epoch before.

use crate::calendar::floor_div;
use crate::error::{Error, Result};
use crate::obs::GpsTime;
use crate::text::{number_text, with_number};
use vstd::prelude::*;

verus! {

pub const RINEX_TICKS_PER_MS: i64 = 10_000;

pub const SECOND_MS: i64 = 1000;

pub const HOUR_MS: i64 = 3_600_000;

pub const DAY_MS: i64 = 86_400_000;

pub const WEEK_MS: i64 = 604_800_000;

pub const HALF_WEEK_MS: i64 = 302_400_000;

pub const BDT_OFFSET_MS: i64 = 14_000;

pub const GLONASS_UTC_OFFSET_MS: i64 = 10_800_000;

pub const DEFAULT_GPS_UTC_MS: i64 = 18_000;

/// A UTC interval (ns since the GPS epoch) constraining epoch resolution.
/// `dur_ns == 0` means "no constraint".
#[derive(Clone, Copy, Debug, PartialEq, Eq, Structural)]
pub struct TimeInterval {
    pub start_ns: i64,
    pub dur_ns: i64,
}

impl Default for TimeInterval {
    fn default() -> (r: TimeInterval)
        ensures
            r.zero(),
            r.start_ns == 0,
    {
        TimeInterval { start_ns: 0, dur_ns: 0 }
    }
}

impl TimeInterval {
    /// Whether the interval constrains nothing.
    pub open spec fn zero(self) -> bool {
        self.dur_ns == 0
    }

    /// Whether `ticks` lies in the interval.
    pub open spec fn holds(self, ticks: int) -> bool {
        self.start_ns <= ticks * 100 < self.start_ns + self.dur_ns
    }

    /// Whether the end of the interval and the weeks around its start can be
    /// counted in 64 bits.
    pub open spec fn usable(self) -> bool {
        &&& i64::MIN <= self.start_ns + self.dur_ns <= i64::MAX
        &&& i64::MIN + 1_814_400_000_000_000 <= self.start_ns <= i64::MAX - 1_814_400_000_000_000
    }

    /// Whether the interval constrains nothing.
    pub fn is_zero(&self) -> (r: bool)
        ensures
            r == self.zero(),
    {
        self.dur_ns == 0
    }

    /// Whether the end of the interval and the weeks around its start can be
    /// counted in 64 bits.
    pub fn is_usable(&self) -> (r: bool)
        ensures
            r == self.usable(),
    {
        self.start_ns >= i64::MIN + 1_814_400_000_000_000 && self.start_ns <= i64::MAX
            - 1_814_400_000_000_000 && match self.start_ns.checked_add(self.dur_ns) {
            Some(_) => true,
            None => false,
        }
    }
}

/// The tick `off` milliseconds into a week, where `i` counts the weeks from the
/// one that puts it at or before `start_ns`.
pub open spec fn week_tick(start_ns: int, off: int, i: int) -> int {
    ((((start_ns / 1_000_000) - off) / WEEK_MS as int + i) * WEEK_MS + off) * 10_000
}

/// Whether `ticks` is one of the candidates around `start_ns`: an offset into
/// one of the four weeks from the one before.
pub open spec fn is_candidate(offsets: Seq<i64>, start_ns: int, ticks: int) -> bool {
    exists|k: int, i: int|
        0 <= k < offsets.len() && -1 <= i <= 2 && ticks == #[trigger] week_tick(
            start_ns,
            offsets[k] as int,
            i,
        )
}

/// Whether `ticks` is a candidate that lies in the constraint.
pub open spec fn matches_week(offsets: Seq<i64>, week: TimeInterval, ticks: int) -> bool {
    is_candidate(offsets, week.start_ns as int, ticks) && week.holds(ticks)
}

/// Whether offsets are small enough to be told apart from weeks: about thirty
/// thousand years.
pub open spec fn offsets_ok(offsets: Seq<i64>) -> bool {
    forall|k: int|
        0 <= k < offsets.len() ==> -1_000_000_000_000_000 <= #[trigger] offsets[k]
            <= 1_000_000_000_000_000
}

fn holds_value(v: &Vec<i64>, x: i64) -> (r: bool)
    ensures
        r == v@.contains(x),
{
    let mut i: usize = 0;
    while i < v.len()
        invariant
            i <= v@.len(),
            forall|j: int| 0 <= j < i ==> v@[j] != x,
        decreases v@.len() - i,
    {
        if v[i] == x {
            assert(v@[i as int] == x);
            return true;
        }
        i += 1;
    }
    false
}

/// What is known of the candidates that were looked at: they are the ticks in
/// `seen`, each once, and `n` of them lie in the constraint, the last of which
/// was `matched`.
spec fn tally(
    offsets: Seq<i64>,
    week: TimeInterval,
    seen: Seq<i64>,
    n: int,
    matched: i64,
) -> bool {
    &&& forall|j: int|
        0 <= j < seen.len() ==> is_candidate(
            offsets,
            week.start_ns as int,
            #[trigger] seen[j] as int,
        )
    &&& n == 0 ==> forall|j: int| 0 <= j < seen.len() ==> !week.holds(#[trigger] seen[j] as int)
    &&& n == 1 ==> seen.contains(matched) && week.holds(matched as int) && forall|j: int|
        0 <= j < seen.len() && week.holds(#[trigger] seen[j] as int) ==> seen[j] == matched
    &&& n >= 2 ==> exists|a: int, b: int|
        0 <= a < b < seen.len() && week.holds(#[trigger] seen[a] as int) && week.holds(
            #[trigger] seen[b] as int,
        ) && seen[a] != seen[b]
    &&& 0 <= n <= seen.len()
}

/// Whether `seen` holds the candidates of the first `k` offsets and those of
/// offset `k` for the weeks before `i`.
spec fn looked_at(offsets: Seq<i64>, start_ns: int, seen: Seq<i64>, k: int, i: int) -> bool {
    forall|kk: int, ii: int|
        0 <= kk < offsets.len() && -1 <= ii <= 2 && (kk < k || (kk == k && ii < i))
            ==> seen.contains(#[trigger] week_tick(start_ns, offsets[kk] as int, ii) as i64)
}

proof fn lemma_week_tick_bounds(start_ns: int, off: int, i: int)
    requires
        i64::MIN + 1_814_400_000_000_000 <= start_ns <= i64::MAX - 1_814_400_000_000_000,
        -1_000_000_000_000_000 <= off <= 1_000_000_000_000_000,
        -1 <= i <= 2,
    ensures
        i64::MIN <= week_tick(start_ns, off, i) * 100 <= i64::MAX,
{
}

/// Resolves an epoch against a week constraint: of the candidates around the
/// start of the constraint, exactly one must lie in it.
pub fn resolve_week(offsets: &[i64], week: TimeInterval) -> (r: Result<GpsTime>)
    requires
        week.usable(),
        offsets_ok(offsets@),
    ensures
        week_resolved(offsets@, week, r),
{
    let end_ns: i64 = week.start_ns + week.dur_ns;
    let start_ms: i64 = floor_div(week.start_ns, 1_000_000);
    let mut matched: i64 = 0;
    let mut nmatch: usize = 0;
    let mut seen: Vec<i64> = Vec::new();
    let mut k: usize = 0;
    let ghost start = week.start_ns as int;
    while k < offsets.len()
        invariant
            k <= offsets@.len(),
            week.usable(),
            offsets_ok(offsets@),
            end_ns == week.start_ns + week.dur_ns,
            start_ms == week.start_ns as int / 1_000_000,
            start == week.start_ns,
            tally(offsets@, week, seen@, nmatch as int, matched),
            looked_at(offsets@, start, seen@, k as int, -1),
        decreases offsets@.len() - k,
    {
        let offset: i64 = offsets[k];
        let w: i64 = floor_div(start_ms - offset, WEEK_MS);
        let mut i: i64 = -1;
        while i <= 2
            invariant
                -1 <= i <= 3,
                k < offsets@.len(),
                offset == offsets@[k as int],
                week.usable(),
                offsets_ok(offsets@),
                end_ns == week.start_ns + week.dur_ns,
                start_ms == week.start_ns as int / 1_000_000,
                start == week.start_ns,
                w == (start_ms - offset) / WEEK_MS as int,
                tally(offsets@, week, seen@, nmatch as int, matched),
                looked_at(offsets@, start, seen@, k as int, i as int),
            decreases 3 - i,
        {
            proof {
                lemma_week_tick_bounds(start, offset as int, i as int);
            }
            let ticks: i64 = ((w + i) * WEEK_MS + offset) * RINEX_TICKS_PER_MS;
            assert(ticks == week_tick(start, offsets@[k as int] as int, i as int));
            if !holds_value(&seen, ticks) {
                let ghost before = seen@;
                let ghost n0 = nmatch as int;
                let ghost m0 = matched;
                let inside: bool = ticks * 100 >= week.start_ns && ticks * 100 < end_ns;
                seen.push(ticks);
                if inside && nmatch < seen.len() {
                    matched = ticks;
                    nmatch += 1;
                }
                proof {
                    lemma_tally_push(offsets@, week, before, n0, m0, ticks);
                    assert forall|kk: int, ii: int|
                        0 <= kk < offsets@.len() && -1 <= ii <= 2 && (kk < k || (kk == k && ii < i
                            + 1)) implies seen@.contains(
                        #[trigger] week_tick(start, offsets@[kk] as int, ii) as i64,
                    ) by {
                        let x = week_tick(start, offsets@[kk] as int, ii) as i64;
                        if kk == k && ii == i {
                            assert(seen@[before.len() as int] == x);
                        } else {
                            assert(before.contains(x));
                            let j = choose|j: int| 0 <= j < before.len() && before[j] == x;
                            assert(seen@[j] == x);
                        }
                    }
                }
            }
            i += 1;
        }
        k += 1;
    }
    proof {
        lemma_tally_complete(offsets@, week, seen@, nmatch as int, matched);
    }
    if nmatch == 0 {
        Err(Error::Rtcm("no MSM7 epoch matches the week constraint".to_owned()))
    } else if nmatch == 1 {
        Ok(GpsTime(matched))
    } else {
        Err(Error::Rtcm("MSM7 epoch is ambiguous in the week constraint".to_owned()))
    }
}

/// What resolving against a constraint gives: the one matching candidate, or the
/// error that there is none or more than one.
pub open spec fn week_resolved(offsets: Seq<i64>, week: TimeInterval, r: Result<GpsTime>) -> bool {
    match r {
        Ok(t) => {
            &&& matches_week(offsets, week, t.0 as int)
            &&& forall|u: int| #[trigger] matches_week(offsets, week, u) ==> u == t.0
        },
        Err(e) => {
            ||| {
                &&& e matches Error::Rtcm(m) && m@ == "no MSM7 epoch matches the week constraint"@
                &&& forall|u: int| !#[trigger] matches_week(offsets, week, u)
            }
            ||| {
                &&& e matches Error::Rtcm(m) && m@
                    == "MSM7 epoch is ambiguous in the week constraint"@
                &&& exists|u: int, v: int|
                    u != v && #[trigger] matches_week(offsets, week, u)
                        && #[trigger] matches_week(offsets, week, v)
            }
        },
    }
}

proof fn lemma_tally_push(
    offsets: Seq<i64>,
    week: TimeInterval,
    seen: Seq<i64>,
    n: int,
    matched: i64,
    ticks: i64,
)
    requires
        tally(offsets, week, seen, n, matched),
        is_candidate(offsets, week.start_ns as int, ticks as int),
        !seen.contains(ticks),
    ensures
        week.holds(ticks as int) ==> tally(offsets, week, seen.push(ticks), n + 1, ticks),
        !week.holds(ticks as int) ==> tally(offsets, week, seen.push(ticks), n, matched),
{
    let s = seen.push(ticks);
    assert(s[seen.len() as int] == ticks);
    assert(forall|j: int| 0 <= j < seen.len() ==> s[j] == seen[j]);
    if n == 1 {
        let j = choose|j: int| 0 <= j < seen.len() && seen[j] == matched;
        assert(s[j] == matched);
        if week.holds(ticks as int) {
            assert(seen[j] != ticks);
            assert(j < seen.len() && week.holds(s[j] as int) && week.holds(
                s[seen.len() as int] as int,
            ));
        }
    }
    if n >= 2 {
        let (a, b) = choose|a: int, b: int|
            0 <= a < b < seen.len() && week.holds(#[trigger] seen[a] as int) && week.holds(
                #[trigger] seen[b] as int,
            ) && seen[a] != seen[b];
        assert(week.holds(s[a] as int) && week.holds(s[b] as int));
    }
}

proof fn lemma_tally_complete(
    offsets: Seq<i64>,
    week: TimeInterval,
    seen: Seq<i64>,
    n: int,
    matched: i64,
)
    requires
        week.usable(),
        offsets_ok(offsets),
        tally(offsets, week, seen, n, matched),
        looked_at(offsets, week.start_ns as int, seen, offsets.len() as int, -1),
    ensures
        forall|u: int| #[trigger] matches_week(offsets, week, u) ==> exists|j: int|
            0 <= j < seen.len() && seen[j] == u,
        n == 0 ==> forall|u: int| !#[trigger] matches_week(offsets, week, u),
        n == 1 ==> matches_week(offsets, week, matched as int) && forall|u: int|
            #[trigger] matches_week(offsets, week, u) ==> u == matched,
        n >= 2 ==> exists|u: int, v: int|
            u != v && #[trigger] matches_week(offsets, week, u) && #[trigger] matches_week(
                offsets,
                week,
                v,
            ),
{
    assert forall|u: int| #[trigger] matches_week(offsets, week, u) implies exists|j: int|
        0 <= j < seen.len() && seen[j] == u by {
        let (k, i) = choose|k: int, i: int|
            0 <= k < offsets.len() && -1 <= i <= 2 && u == #[trigger] week_tick(
                week.start_ns as int,
                offsets[k] as int,
                i,
            );
        lemma_week_tick_bounds(week.start_ns as int, offsets[k] as int, i);
        assert(seen.contains(week_tick(week.start_ns as int, offsets[k] as int, i) as i64));
        let j = choose|j: int| 0 <= j < seen.len() && seen[j] == u as i64;
        assert(seen[j] == u);
    }
    if n == 1 {
        let j = choose|j: int| 0 <= j < seen.len() && seen[j] == matched;
        assert(is_candidate(offsets, week.start_ns as int, seen[j] as int));
    }
    if n >= 2 {
        let (a, b) = choose|a: int, b: int|
            0 <= a < b < seen.len() && week.holds(#[trigger] seen[a] as int) && week.holds(
                #[trigger] seen[b] as int,
            ) && seen[a] != seen[b];
        assert(matches_week(offsets, week, seen[a] as int));
        assert(matches_week(offsets, week, seen[b] as int));
    }
}

/// For a constraint of at most a week, the candidates in it are all the ticks in
/// it that lie at one of the offsets into some week.
pub proof fn lemma_candidates_complete(offsets: Seq<i64>, week: TimeInterval, ticks: int, k: int, w: int)
    requires
        0 <= k < offsets.len(),
        week.dur_ns <= 604_800_000_000_000,
        ticks == (w * WEEK_MS + offsets[k]) * 10_000,
        week.holds(ticks),
    ensures
        matches_week(offsets, week, ticks),
{
    let start = week.start_ns as int;
    let off = offsets[k] as int;
    let i = w - ((start / 1_000_000) - off) / WEEK_MS as int;
    assert(-1 <= i <= 2);
    assert(ticks == week_tick(start, off, i));
}

// ---- continuity ----

/// Milliseconds of a tick, rounded towards zero.
pub open spec fn tick_ms(ticks: int) -> int {
    if ticks >= 0 {
        ticks / 10_000
    } else {
        -((-ticks) / 10_000)
    }
}

/// The millisecond at `offset` into week `prev_week`, moved by a week where that
/// is more than half a week from `prev_ms`.
pub open spec fn continued_ms(prev_week: int, offset: int, prev_ms: int) -> int {
    let ms = prev_week * WEEK_MS + offset;
    if ms - prev_ms < -HALF_WEEK_MS {
        ms + WEEK_MS
    } else if ms - prev_ms > HALF_WEEK_MS {
        ms - WEEK_MS
    } else {
        ms
    }
}

/// The tick at `offset` into the week of the previous epoch or a neighbour of it.
pub fn continuity_candidate(prev_week: i64, offset: i64, prev_ms: i64) -> (r: GpsTime)
    requires
        i64::MIN <= prev_week * WEEK_MS <= i64::MAX,
        i64::MIN <= prev_week * WEEK_MS + offset <= i64::MAX,
        i64::MIN <= prev_week * WEEK_MS + offset - prev_ms <= i64::MAX,
        i64::MIN <= continued_ms(prev_week as int, offset as int, prev_ms as int) * 10_000
            <= i64::MAX,
    ensures
        r.0 == continued_ms(prev_week as int, offset as int, prev_ms as int) * 10_000,
{
    let mut cand_ms: i64 = prev_week * WEEK_MS + offset;
    let diff: i64 = cand_ms - prev_ms;
    if diff < -HALF_WEEK_MS {
        cand_ms += WEEK_MS;
    } else if diff > HALF_WEEK_MS {
        cand_ms -= WEEK_MS;
    }
    GpsTime(cand_ms * RINEX_TICKS_PER_MS)
}

/// How far a millisecond lies from another.
pub open spec fn distance(a: int, b: int) -> int {
    if a >= b {
        a - b
    } else {
        b - a
    }
}

/// The candidate of offset `k` after the epoch `prev`.
pub open spec fn candidate_after(offsets: Seq<i64>, prev: GpsTime, k: int) -> int {
    let prev_ms = tick_ms(prev.0 as int);
    continued_ms(prev_ms / WEEK_MS as int, offsets[k] as int, prev_ms)
}

/// Whether offset `k` gives the nearest candidate to the epoch `prev`, and the
/// first of them where several are equally near.
pub open spec fn nearest_at(offsets: Seq<i64>, prev: GpsTime, k: int) -> bool {
    let prev_ms = tick_ms(prev.0 as int);
    &&& 0 <= k < offsets.len()
    &&& forall|j: int|
        0 <= j < offsets.len() ==> distance(candidate_after(offsets, prev, k), prev_ms)
            <= distance(#[trigger] candidate_after(offsets, prev, j), prev_ms)
    &&& forall|j: int|
        0 <= j < k ==> distance(candidate_after(offsets, prev, k), prev_ms) < distance(
            #[trigger] candidate_after(offsets, prev, j),
            prev_ms,
        )
}

/// Whether an epoch leaves room for the weeks around it.
pub open spec fn can_continue(t: GpsTime) -> bool {
    -9_000_000_000_000_000_000 <= t.0 <= 9_000_000_000_000_000_000
}

/// Whether offsets are within a few weeks.
pub open spec fn offsets_near(offsets: Seq<i64>) -> bool {
    forall|k: int|
        0 <= k < offsets.len() ==> -6_048_000_000 <= #[trigger] offsets[k] <= 6_048_000_000
}

/// Resolves an epoch by continuity: the candidate nearest to the previous epoch.
pub fn resolve_continuity(offsets: &[i64], prev: GpsTime) -> (r: GpsTime)
    requires
        offsets@.len() > 0,
        offsets_near(offsets@),
        can_continue(prev),
    ensures
        exists|k: int|
            nearest_at(offsets@, prev, k) && r.0 == #[trigger] candidate_after(offsets@, prev, k)
                * 10_000,
{
    let prev_ms: i64 = prev.0 / RINEX_TICKS_PER_MS;
    let prev_week: i64 = floor_div(prev_ms, WEEK_MS);
    let mut best: GpsTime = continuity_candidate(prev_week, offsets[0], prev_ms);
    let mut best_diff: i64 = ms_apart(best.0 / RINEX_TICKS_PER_MS, prev_ms);
    let mut i: usize = 1;
    let ghost mut at: int = 0;
    while i < offsets.len()
        invariant
            1 <= i <= offsets@.len(),
            offsets_near(offsets@),
            can_continue(prev),
            prev_ms == tick_ms(prev.0 as int),
            prev_week == prev_ms as int / WEEK_MS as int,
            0 <= at < i,
            best.0 == candidate_after(offsets@, prev, at) * 10_000,
            best_diff == distance(candidate_after(offsets@, prev, at), prev_ms as int),
            forall|j: int|
                0 <= j < i ==> best_diff <= distance(
                    #[trigger] candidate_after(offsets@, prev, j),
                    prev_ms as int,
                ),
            forall|j: int|
                0 <= j < at ==> best_diff < distance(
                    #[trigger] candidate_after(offsets@, prev, j),
                    prev_ms as int,
                ),
        decreases offsets@.len() - i,
    {
        let t: GpsTime = continuity_candidate(prev_week, offsets[i], prev_ms);
        let diff: i64 = ms_apart(t.0 / RINEX_TICKS_PER_MS, prev_ms);
        if diff < best_diff {
            best = t;
            best_diff = diff;
            proof {
                at = i as int;
            }
        }
        i += 1;
    }
    assert(nearest_at(offsets@, prev, at));
    best
}

fn ms_apart(a: i64, b: i64) -> (r: i64)
    requires
        -1_000_000_000_000_000 <= a <= 1_000_000_000_000_000,
        -1_000_000_000_000_000 <= b <= 1_000_000_000_000_000,
    ensures
        r == distance(a as int, b as int),
{
    if a >= b {
        a - b
    } else {
        b - a
    }
}

/// An epoch that is continued from an offset within the week lies within half a
/// week of the previous one.
pub proof fn lemma_continuity_near(offsets: Seq<i64>, prev: GpsTime, k: int)
    requires
        0 <= k < offsets.len(),
        0 <= offsets[k] < WEEK_MS,
    ensures
        distance(candidate_after(offsets, prev, k), tick_ms(prev.0 as int)) <= HALF_WEEK_MS,
        (candidate_after(offsets, prev, k) - offsets[k]) % WEEK_MS as int == 0,
{
    let prev_ms = tick_ms(prev.0 as int);
    let w = prev_ms / WEEK_MS as int;
    assert((w * WEEK_MS) % WEEK_MS as int == 0 && ((w + 1) * WEEK_MS) % WEEK_MS as int == 0 && ((w
        - 1) * WEEK_MS) % WEEK_MS as int == 0);
}

// ---- offsets ----

/// A satellite system of the RTCM observation messages.
#[derive(Clone, Copy, Debug, PartialEq, Eq, Hash, Structural)]
pub enum Gnss {
    Gps,
    Glonass,
    Galileo,
    Sbas,
    Qzss,
    Beidou,
    Irnss,
}

/// The day of a GLONASS epoch field: its top bits, 7 where it is not known.
pub open spec fn glonass_day(epoch: u32) -> int {
    epoch as int / 0x800_0000
}

/// The milliseconds into the day of a GLONASS epoch field.
pub open spec fn glonass_tod(epoch: u32) -> int {
    epoch as int % 0x800_0000
}

/// Where day `d` of a GLONASS epoch lies in the GPS week: Moscow time is three
/// hours ahead of UTC, and GPS time is ahead of UTC by the leap seconds.
pub open spec fn glonass_offset(d: int, tod: int, leap_ms: int) -> int {
    d * DAY_MS + tod - GLONASS_UTC_OFFSET_MS + leap_ms
}

/// The milliseconds into the GPS week that an epoch field can stand for; none
/// where the field is not valid.
pub open spec fn epoch_offsets(gnss: Gnss, epoch: u32, leap_ms: int) -> Option<Seq<int>> {
    if gnss == Gnss::Glonass {
        if glonass_tod(epoch) >= DAY_MS {
            None
        } else if glonass_day(epoch) != 7 {
            Some(seq![glonass_offset(glonass_day(epoch), glonass_tod(epoch), leap_ms)])
        } else {
            Some(Seq::new(7, |d: int| glonass_offset(d, glonass_tod(epoch), leap_ms)))
        }
    } else if epoch >= WEEK_MS {
        None
    } else if gnss == Gnss::Beidou {
        Some(seq![epoch + BDT_OFFSET_MS])
    } else {
        Some(seq![epoch as int])
    }
}

/// The message for an epoch field that is not valid.
pub open spec fn epoch_error(gnss: Gnss, epoch: u32) -> Seq<char> {
    if gnss == Gnss::Glonass {
        "invalid GLONASS time of day "@ + number_text(glonass_tod(epoch) as nat)
    } else {
        "invalid RTCM MSM7 epoch time "@ + number_text(epoch as nat)
    }
}

/// The values of a list of offsets.
pub open spec fn as_ints(v: Seq<i64>) -> Seq<int> {
    v.map_values(|x: i64| x as int)
}

/// What the offsets of an epoch field are, or the error that it is not valid.
pub open spec fn offsets_found(gnss: Gnss, epoch: u32, leap_ms: int, r: Result<Vec<i64>>) -> bool {
    match epoch_offsets(gnss, epoch, leap_ms) {
        Some(s) => r matches Ok(v) && as_ints(v@) == s,
        None => r matches Err(Error::Rtcm(m)) && m@ == epoch_error(gnss, epoch),
    }
}

/// The milliseconds into the GPS week that an epoch field can stand for.
pub fn epoch_week_offsets(epoch_time: u32, gnss: Gnss, leap_ms: i64) -> (r: Result<Vec<i64>>)
    requires
        0 <= leap_ms <= 1_000_000,
    ensures
        offsets_found(gnss, epoch_time, leap_ms as int, r),
        r matches Ok(v) ==> offsets_near(v@) && v@.len() > 0,
{
    match gnss {
        Gnss::Glonass => glonass_epoch_week_offsets(epoch_time, leap_ms),
        Gnss::Beidou => {
            if epoch_time as i64 >= WEEK_MS {
                return Err(
                    Error::Rtcm(with_number("invalid RTCM MSM7 epoch time ", epoch_time as u64)),
                );
            }
            let mut v: Vec<i64> = Vec::new();
            v.push(epoch_time as i64 + BDT_OFFSET_MS);
            assert(as_ints(v@) =~= seq![epoch_time + BDT_OFFSET_MS]);
            Ok(v)
        },
        _ => {
            if epoch_time as i64 >= WEEK_MS {
                return Err(
                    Error::Rtcm(with_number("invalid RTCM MSM7 epoch time ", epoch_time as u64)),
                );
            }
            let mut v: Vec<i64> = Vec::new();
            v.push(epoch_time as i64);
            assert(as_ints(v@) =~= seq![epoch_time as int]);
            Ok(v)
        },
    }
}

/// The milliseconds into the GPS week that a GLONASS epoch field can stand for:
/// one for a known day, seven where the day is not known.
pub fn glonass_epoch_week_offsets(epoch: u32, leap_ms: i64) -> (r: Result<Vec<i64>>)
    requires
        0 <= leap_ms <= 1_000_000,
    ensures
        offsets_found(Gnss::Glonass, epoch, leap_ms as int, r),
        r matches Ok(v) ==> offsets_near(v@) && v@.len() > 0,
{
    let day: i64 = (epoch >> 27) as i64;
    let tod: i64 = (epoch & 0x7ff_ffff) as i64;
    proof {
        assert(epoch >> 27 == epoch / 0x800_0000 && epoch & 0x7ff_ffff == epoch % 0x800_0000
            && epoch >> 27 <= 31) by (bit_vector);
    }
    if tod >= DAY_MS {
        return Err(Error::Rtcm(with_number("invalid GLONASS time of day ", tod as u64)));
    }
    let mut v: Vec<i64> = Vec::new();
    if day != 7 {
        v.push(day * DAY_MS + tod - GLONASS_UTC_OFFSET_MS + leap_ms);
        assert(as_ints(v@) =~= seq![glonass_offset(day as int, tod as int, leap_ms as int)]);
        return Ok(v);
    }
    let mut d: i64 = 0;
    while d < 7
        invariant
            0 <= d <= 7,
            v@.len() == d,
            0 <= tod < DAY_MS,
            0 <= leap_ms <= 1_000_000,
            offsets_near(v@),
            forall|j: int|
                0 <= j < d ==> #[trigger] v@[j] == glonass_offset(j, tod as int, leap_ms as int),
        decreases 7 - d,
    {
        v.push(d * DAY_MS + tod - GLONASS_UTC_OFFSET_MS + leap_ms);
        d += 1;
    }
    assert(as_ints(v@) =~= Seq::new(
        7,
        |d: int| glonass_offset(d, tod as int, leap_ms as int),
    ));
    Ok(v)
}

} // verus!
