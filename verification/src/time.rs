//! Points in time, as archives record them.
use std::time::{Duration, SystemTime, UNIX_EPOCH};
use vstd::prelude::*;

verus! {

/// The nanoseconds in a second.
pub const NANOS: u32 = 1_000_000_000;

/// The system clock's own representation of a point in time.
#[verifier::external_type_specification]
#[verifier::external_body]
pub struct ExSystemTime(SystemTime);

/// How many nanoseconds `time` lies after the Unix epoch; negative before it.
pub uninterp spec fn epoch_nanos(time: SystemTime) -> int;

/// The clock can represent the point in time `nanos` nanoseconds after the Unix epoch.
pub open spec fn is_on_clock(nanos: int) -> bool {
    exists|time: SystemTime| #[trigger] epoch_nanos(time) == nanos
}

/// `SystemTime::duration_since`, applied to the Unix epoch: whether `time` is not before the
/// epoch, and its distance from it in whole seconds and the nanoseconds of a further second.
#[verifier::external_body]
fn since_epoch(time: SystemTime) -> (r: (bool, u64, u32))
    ensures
        r.2 < NANOS,
        epoch_nanos(time) == if r.0 {
            r.1 * NANOS + r.2
        } else {
            -(r.1 * NANOS + r.2)
        },
{
    match time.duration_since(UNIX_EPOCH) {
        Ok(after) => (true, after.as_secs(), after.subsec_nanos()),
        Err(error) => (false, error.duration().as_secs(), error.duration().subsec_nanos()),
    }
}

/// `SystemTime::checked_add`, applied to the Unix epoch: the point in time that lies the given
/// distance after the epoch, where the clock can represent it. Clocks may count in steps of up to
/// a hundred nanoseconds, and a distance between two steps is cut to a step. Which points in time
/// can be represented depends on the machine and is left unsaid.
#[verifier::external_body]
fn after_epoch(seconds: u64, nanoseconds: u32) -> (r: Option<SystemTime>)
    requires
        nanoseconds < NANOS,
    ensures
        r matches Some(t) ==> {
            let distance = seconds * NANOS + nanoseconds;
            &&& epoch_nanos(t) <= distance < epoch_nanos(t) + 100
            &&& nanoseconds % 100 == 0 ==> epoch_nanos(t) == distance
        },
        is_on_clock(seconds * NANOS + nanoseconds) ==> r is Some && epoch_nanos(r->Some_0)
            == seconds * NANOS + nanoseconds,
{
    UNIX_EPOCH.checked_add(Duration::new(seconds, nanoseconds))
}

/// `SystemTime::checked_sub`, applied to the Unix epoch: the point in time that lies the given
/// distance before the epoch, where the clock can represent it, cut to a step of the clock as in
/// `after_epoch`. Which points in time can be represented depends on the machine and is left
/// unsaid.
#[verifier::external_body]
fn before_epoch(seconds: u64, nanoseconds: u32) -> (r: Option<SystemTime>)
    requires
        nanoseconds < NANOS,
    ensures
        r matches Some(t) ==> {
            let distance = seconds * NANOS + nanoseconds;
            &&& epoch_nanos(t) - 100 < -distance <= epoch_nanos(t)
            &&& nanoseconds % 100 == 0 ==> epoch_nanos(t) == -distance
        },
        is_on_clock(-(seconds * NANOS + nanoseconds)) ==> r is Some && epoch_nanos(r->Some_0) == -(
        seconds * NANOS + nanoseconds),
{
    UNIX_EPOCH.checked_sub(Duration::new(seconds, nanoseconds))
}

/// `std::time::UNIX_EPOCH`, the epoch itself.
#[verifier::external_body]
fn epoch() -> (r: SystemTime)
    ensures
        epoch_nanos(r) == 0,
{
    UNIX_EPOCH
}

/// `SystemTime::now`. Nothing is said of the clock.
#[verifier::external_body]
fn clock() -> SystemTime {
    SystemTime::now()
}

/// A point in time: whole seconds since the Unix epoch, and nanoseconds that count forward from
/// them also before the epoch.
#[derive(Debug, Clone, Copy, PartialEq, Eq, Structural)]
pub struct Timestamp {
    pub seconds: i64,
    pub nanoseconds: u32,
}

/// `seconds` cut to what a timestamp can hold. The lower bound is `-i64::MAX` for whole seconds.
pub open spec fn clamped(seconds: int, nanoseconds: int) -> i64 {
    if seconds > i64::MAX {
        i64::MAX
    } else if nanoseconds == 0 && seconds < -i64::MAX {
        (-i64::MAX) as i64
    } else if seconds < i64::MIN {
        i64::MIN
    } else {
        seconds as i64
    }
}

/// The timestamp for the point in time `nanos` nanoseconds after the epoch.
pub open spec fn timestamp_at(nanos: int) -> Timestamp {
    Timestamp {
        seconds: clamped(nanos / (NANOS as int), nanos % (NANOS as int)),
        nanoseconds: (nanos % (NANOS as int)) as u32,
    }
}

impl Timestamp {
    /// The nanoseconds do not make up a second.
    pub open spec fn is_valid(self) -> bool {
        self.nanoseconds < NANOS
    }

    /// The nanoseconds between the epoch and this point in time.
    pub open spec fn nanos(self) -> int {
        self.seconds * NANOS + if self.nanoseconds < NANOS {
            self.nanoseconds as int
        } else {
            NANOS - 1
        }
    }

    /// A clock that counts in steps of at most a hundred nanoseconds shows this point in time as
    /// `nanos`.
    pub open spec fn is_shown_by(self, nanos: int) -> bool {
        &&& self.nanos() - 100 < nanos < self.nanos() + 100
        &&& self.is_valid() && self.nanoseconds % 100 == 0 ==> nanos == self.nanos()
    }

    /// `time` is what a clock makes of this timestamp: the point in time that it stands for where
    /// the clock has that, and else the clock's step next to it or the epoch.
    pub open spec fn is_given_as(self, time: SystemTime) -> bool {
        &&& is_on_clock(self.nanos()) ==> epoch_nanos(time) == self.nanos()
        &&& epoch_nanos(time) == 0 || self.is_shown_by(epoch_nanos(time))
    }

    /// The present.
    pub fn now() -> (r: Self)
        ensures
            r.is_valid(),
            exists|nanos: int| r == #[trigger] timestamp_at(nanos),
    {
        let time: SystemTime = clock();
        let r: Timestamp = Self::from_system_time(time);
        assert(r == timestamp_at(epoch_nanos(time)));
        r
    }

    /// The timestamp of `time`.
    pub fn from_system_time(time: SystemTime) -> (r: Self)
        ensures
            r == timestamp_at(epoch_nanos(time)),
            r.is_valid(),
    {
        let (after, seconds, nanoseconds) = since_epoch(time);
        let largest: u64 = i64::MAX as u64;
        let whole: i64 = if seconds > largest {
            i64::MAX
        } else {
            seconds as i64
        };
        if after {
            Self { seconds: whole, nanoseconds }
        } else if nanoseconds == 0 {
            Self { seconds: -whole, nanoseconds: 0 }
        } else {
            Self { seconds: -whole - 1, nanoseconds: NANOS - nanoseconds }
        }
    }

    /// The distance from the epoch: whether it counts forward, whole seconds, and the nanoseconds
    /// of a further second.
    pub fn distance(self) -> (r: (bool, u64, u32))
        ensures
            r.2 < NANOS,
            self.nanos() == if r.0 {
                r.1 * NANOS + r.2
            } else {
                -(r.1 * NANOS + r.2)
            },
            r.0 == (self.seconds >= 0),
    {
        let fraction: u32 = if self.nanoseconds < NANOS {
            self.nanoseconds
        } else {
            NANOS - 1
        };
        if self.seconds >= 0 {
            (true, self.seconds as u64, fraction)
        } else if self.nanoseconds == 0 {
            (false, (-(self.seconds + 1)) as u64 + 1, 0)
        } else {
            (false, (-(self.seconds + 1)) as u64, NANOS - fraction)
        }
    }

    /// The point in time that this timestamp stands for, to the precision of the clock, or the
    /// epoch where the clock cannot represent it.
    pub fn to_system_time(self) -> (r: SystemTime)
        ensures
            self.is_given_as(r),
    {
        let (after, seconds, nanoseconds) = self.distance();
        let shifted: Option<SystemTime> = if after {
            after_epoch(seconds, nanoseconds)
        } else {
            before_epoch(seconds, nanoseconds)
        };
        or_epoch(shifted)
    }
}

/// A point in time that the clock can represent, or the epoch.
pub fn or_epoch(time: Option<SystemTime>) -> (r: SystemTime)
    ensures
        match time {
            Some(t) => r == t,
            None => epoch_nanos(r) == 0,
        },
{
    match time {
        Some(time) => time,
        None => epoch(),
    }
}

/// A valid timestamp is the timestamp of the point in time that it stands for, but for the one
/// whole second that lies further back than `-i64::MAX`.
pub proof fn law_timestamp_round_trip(t: Timestamp)
    requires
        t.is_valid(),
        t.seconds > i64::MIN || t.nanoseconds > 0,
    ensures
        timestamp_at(t.nanos()) == t,
{
}

/// A clock gives a timestamp back as it was, where it can represent it at all.
pub proof fn law_system_time_round_trip(t: Timestamp, time: SystemTime)
    requires
        t.is_valid(),
        t.seconds > i64::MIN || t.nanoseconds > 0,
        is_on_clock(t.nanos()),
        t.is_given_as(time),
    ensures
        timestamp_at(epoch_nanos(time)) == t,
{
    law_timestamp_round_trip(t);
}

/// A time of the clock that is turned into a timestamp and back is the same time. Left out are
/// times that lie further from the epoch than a timestamp can say.
pub proof fn law_clock_time_round_trip(time: SystemTime, back: SystemTime)
    requires
        i64::MIN * NANOS < epoch_nanos(time) < (i64::MAX + 1) * NANOS,
        timestamp_at(epoch_nanos(time)).is_given_as(back),
    ensures
        epoch_nanos(back) == epoch_nanos(time),
{
    assert(timestamp_at(epoch_nanos(time)).nanos() == epoch_nanos(time));
}

/// Later points in time never have earlier timestamps.
pub proof fn law_timestamp_monotone(a: int, b: int)
    requires
        a <= b,
        i64::MIN < a / (NANOS as int),
        b / (NANOS as int) <= i64::MAX,
    ensures
        timestamp_at(a).nanos() <= timestamp_at(b).nanos(),
{
}

} // verus!
