//! Calibration of the time-stamp counter: cycles against nanoseconds, and the counter
//! against Unix time, so that time stamps of different processes can be compared.
//!
//! The clock rates are real numbers, and multiplying by them is the host's work. What
//! remains is exact: the counter wraps around, and a time is its distance from an epoch at
//! which both clocks were read.

use crate::num::Num;
use vstd::prelude::*;
use vstd::wrapping::u64_specs::{wrapping_add, wrapping_sub};

verus! {

/// A calibration older than this many nanoseconds is to be refreshed.
pub const REFRESH_AFTER_NS: u64 = 60_000_000_000;

/// A calibration made at `made` is to be refreshed `now`.
pub open spec fn is_stale(made: u64, now: u64) -> bool {
    now - made > REFRESH_AFTER_NS
}

/// Calibration data.
#[derive(Clone, Copy, PartialEq, Eq, Structural, Debug)]
pub struct TscCalibration {
    pub cycles_per_ns: Num,
    pub ns_per_cycle: Num,
    /// The counter at the epoch.
    pub epoch_tsc: u64,
    /// Unix time at the epoch, in nanoseconds.
    pub epoch_unix_ns: u64,
    /// When the calibration was made, on the host's steady clock, in nanoseconds.
    pub last_calibration: u64,
    pub cpu_frequency_hz: u64,
}

/// A number of cycles or nanoseconds that the host computed, as an integer.
pub open spec fn as_count(x: Num) -> u64 {
    if x.whole() <= u64::MAX {
        x.whole() as u64
    } else {
        u64::MAX
    }
}

/// Half of a clock's range. A clock wraps around, so a time lies on that side of the epoch
/// on which it is less than half a turn away.
pub const HALF_TURN: u64 = 0x8000_0000_0000_0000;

/// Whether `time` is the epoch or lies ahead of it.
pub open spec fn is_ahead(epoch: u64, time: u64) -> bool {
    wrapping_sub(time, epoch) < HALF_TURN
}

/// How far `time` lies from the epoch, on whichever side.
pub open spec fn distance(epoch: u64, time: u64) -> u64 {
    if is_ahead(epoch, time) {
        wrapping_sub(time, epoch)
    } else {
        wrapping_sub(epoch, time)
    }
}

/// The time at a distance from the epoch, ahead of it or before it.
pub open spec fn time_at(epoch: u64, ahead: bool, distance: u64) -> u64 {
    if ahead {
        wrapping_add(epoch, distance)
    } else {
        wrapping_sub(epoch, distance)
    }
}

/// Cycles between two reads of the counter; 0 where it ran backwards.
pub fn measured_cycles(start_tsc: u64, end_tsc: u64) -> (r: u64)
    ensures
        r == if end_tsc > start_tsc {
            end_tsc - start_tsc
        } else {
            0
        },
{
    end_tsc.saturating_sub(start_tsc)
}

impl TscCalibration {
    /// The calibration of a measurement. `hertz` is the clock rate in cycles per second.
    pub fn new(
        cycles_per_ns: Num,
        ns_per_cycle: Num,
        hertz: Num,
        epoch_tsc: u64,
        epoch_unix_ns: u64,
        now: u64,
    ) -> (r: Self)
        ensures
            r == (TscCalibration {
                cycles_per_ns,
                ns_per_cycle,
                epoch_tsc,
                epoch_unix_ns,
                last_calibration: now,
                cpu_frequency_hz: as_count(hertz),
            }),
    {
        TscCalibration {
            cycles_per_ns,
            ns_per_cycle,
            epoch_tsc,
            epoch_unix_ns,
            last_calibration: now,
            cpu_frequency_hz: hertz.to_u64(),
        }
    }

    /// Cycles as nanoseconds. `scale` multiplies a count by a rate.
    pub fn cycles_to_ns<M: Fn(u64, Num) -> Num>(&self, cycles: u64, scale: M) -> (r: u64)
        requires
            scale.requires((cycles, self.ns_per_cycle)),
        ensures
            exists|x: Num| #[trigger]
                scale.ensures((cycles, self.ns_per_cycle), x) && r == as_count(x),
    {
        let x = scale(cycles, self.ns_per_cycle);
        x.to_u64()
    }

    /// Nanoseconds as cycles. `scale` multiplies a count by a rate.
    pub fn ns_to_cycles<M: Fn(u64, Num) -> Num>(&self, ns: u64, scale: M) -> (r: u64)
        requires
            scale.requires((ns, self.cycles_per_ns)),
        ensures
            exists|x: Num| #[trigger]
                scale.ensures((ns, self.cycles_per_ns), x) && r == as_count(x),
    {
        let x = scale(ns, self.cycles_per_ns);
        x.to_u64()
    }

    /// Unix time of a counter value: the counter's distance from its epoch, on its side of
    /// it, is the time's distance from its own.
    pub fn tsc_to_unix_ns<M: Fn(u64, Num) -> Num>(&self, tsc: u64, scale: M) -> (r: u64)
        requires
            scale.requires((distance(self.epoch_tsc, tsc), self.ns_per_cycle)),
        ensures
            exists|x: Num| #[trigger]
                scale.ensures((distance(self.epoch_tsc, tsc), self.ns_per_cycle), x) && r
                    == time_at(self.epoch_unix_ns, is_ahead(self.epoch_tsc, tsc), as_count(x)),
    {
        let elapsed_cycles: u64 = tsc.wrapping_sub(self.epoch_tsc);
        if elapsed_cycles < HALF_TURN {
            let elapsed_ns: u64 = self.cycles_to_ns(elapsed_cycles, scale);
            self.epoch_unix_ns.wrapping_add(elapsed_ns)
        } else {
            let remaining_ns: u64 = self.cycles_to_ns(self.epoch_tsc.wrapping_sub(tsc), scale);
            self.epoch_unix_ns.wrapping_sub(remaining_ns)
        }
    }

    /// The counter at a Unix time: the time's distance from its epoch, on its side of it, is
    /// the counter's distance from its own.
    pub fn unix_ns_to_tsc<M: Fn(u64, Num) -> Num>(&self, unix_ns: u64, scale: M) -> (r: u64)
        requires
            scale.requires((distance(self.epoch_unix_ns, unix_ns), self.cycles_per_ns)),
        ensures
            exists|x: Num| #[trigger]
                scale.ensures((distance(self.epoch_unix_ns, unix_ns), self.cycles_per_ns), x) && r
                    == time_at(self.epoch_tsc, is_ahead(self.epoch_unix_ns, unix_ns), as_count(x)),
    {
        let elapsed_ns: u64 = unix_ns.wrapping_sub(self.epoch_unix_ns);
        if elapsed_ns < HALF_TURN {
            let elapsed_cycles: u64 = self.ns_to_cycles(elapsed_ns, scale);
            self.epoch_tsc.wrapping_add(elapsed_cycles)
        } else {
            let remaining: u64 = self.ns_to_cycles(self.epoch_unix_ns.wrapping_sub(unix_ns), scale);
            self.epoch_tsc.wrapping_sub(remaining)
        }
    }

    /// Whether the calibration is over a minute old at `now` on the host's steady clock.
    pub fn needs_refresh(&self, now: u64) -> (r: bool)
        ensures
            r == (now - self.last_calibration > REFRESH_AFTER_NS),
            r == is_stale(self.last_calibration, now),
    {
        now.saturating_sub(self.last_calibration) > REFRESH_AFTER_NS
    }
}

/// Distances from the epoch are exact both ways, ahead of it and before it, also where a
/// clock wraps around: going by a time's distance on its side of the epoch arrives at that
/// time, and going by a distance of less than half a turn and measuring gives it back.
pub proof fn law_epoch_distances_are_exact(epoch: u64, time: u64, ahead: bool, gap: u64)
    requires
        gap < HALF_TURN,
        gap == 0 ==> ahead,
    ensures
        time_at(epoch, is_ahead(epoch, time), distance(epoch, time)) == time,
        distance(epoch, time) <= HALF_TURN,
        is_ahead(epoch, time_at(epoch, ahead, gap)) == ahead,
        distance(epoch, time_at(epoch, ahead, gap)) == gap,
        distance(epoch, epoch) == 0,
{
}

/// Stamps of different processes can be compared, on either side of the epoch: where
/// `scale` keeps the order of distances and no time leaves its clock's range, the earlier
/// of two counter values has the earlier Unix time, or the same.
pub proof fn law_stamps_compare(
    epoch_tsc: u64,
    epoch_unix_ns: u64,
    a: u64,
    b: u64,
    scaled: spec_fn(u64) -> u64,
)
    requires
        a <= b,
        a < epoch_tsc ==> epoch_tsc - a <= HALF_TURN,
        b < epoch_tsc ==> epoch_tsc - b <= HALF_TURN,
        a >= epoch_tsc ==> a - epoch_tsc < HALF_TURN,
        b >= epoch_tsc ==> b - epoch_tsc < HALF_TURN,
        forall|x: u64, y: u64| x <= y ==> #[trigger] scaled(x) <= #[trigger] scaled(y),
        is_ahead(epoch_tsc, b) ==> epoch_unix_ns + scaled(distance(epoch_tsc, b)) <= u64::MAX,
        !is_ahead(epoch_tsc, a) ==> scaled(distance(epoch_tsc, a)) <= epoch_unix_ns,
    ensures
        time_at(epoch_unix_ns, is_ahead(epoch_tsc, a), scaled(distance(epoch_tsc, a))) <= time_at(
            epoch_unix_ns,
            is_ahead(epoch_tsc, b),
            scaled(distance(epoch_tsc, b)),
        ),
{
    let da = distance(epoch_tsc, a);
    let db = distance(epoch_tsc, b);
    if is_ahead(epoch_tsc, a) {
        assert(a >= epoch_tsc);
        assert(scaled(da) <= scaled(db));
    } else if !is_ahead(epoch_tsc, b) {
        assert(scaled(db) <= scaled(da));
    }
}

/// A number of the host counts as its whole part; what is negative or no number counts as
/// none, and what does not fit as the greatest count there is.
pub proof fn law_counts_are_whole_parts(x: Num)
    ensures
        x.nan() || x.value() < 0 ==> as_count(x) == 0,
        !x.nan() && x.value() >= 0 && x.whole() <= u64::MAX ==> as_count(x) == x.whole(),
        x.whole() > u64::MAX ==> as_count(x) == u64::MAX,
{
}

/// The side of the epoch that a time lies on, and how far from it: a time less than half a
/// turn ahead is ahead by just that much, and a time up to half a turn behind is behind by
/// just that much.
pub proof fn law_times_lie_on_their_side(epoch: u64, ahead_by: u64, behind_by: u64)
    requires
        ahead_by < 0x8000_0000_0000_0000,
        0 < behind_by <= 0x8000_0000_0000_0000,
    ensures
        is_ahead(epoch, wrapping_add(epoch, ahead_by)),
        distance(epoch, wrapping_add(epoch, ahead_by)) == ahead_by,
        !is_ahead(epoch, wrapping_sub(epoch, behind_by)),
        distance(epoch, wrapping_sub(epoch, behind_by)) == behind_by,
        time_at(epoch, true, ahead_by) == wrapping_add(epoch, ahead_by),
        time_at(epoch, false, behind_by) == wrapping_sub(epoch, behind_by),
{
}

/// A calibration lasts for a minute and no longer, and none is stale before it was made.
pub proof fn law_calibrations_last_a_minute(made: u64, now: u64)
    ensures
        is_stale(made, now) <==> now > made + 60 * 1_000_000_000,
{
}

} // verus!
