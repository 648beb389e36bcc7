//! Timestamps of directory entries.

use crate::civil::{civil_now, CivilTime};
use vstd::prelude::*;

verus! {

/// A moment as exFAT stores it.
#[derive(Debug, Clone, Copy, PartialEq, Eq, Structural)]
pub struct ExFatTimestamp {
    /// Year, 1980 to 2107.
    pub year: u16,
    /// Month, from 1.
    pub month: u8,
    /// Day of the month, from 1.
    pub day: u8,
    /// Hour.
    pub hour: u8,
    /// Minute.
    pub minute: u8,
    /// Second.
    pub second: u8,
    /// Hundredths of a second.
    pub hundredths: u8,
    /// Offset from universal time: the high bit says that the rest is valid, in quarters
    /// of an hour.
    pub utc_offset: u8,
}

impl ExFatTimestamp {
    /// Whether the fields can be stored.
    pub open spec fn wf(self) -> bool {
        &&& 1980 <= self.year <= 2107
        &&& self.month < 16
        &&& self.day < 32
        &&& self.hour < 32
        &&& self.minute < 64
        &&& self.second < 64
        &&& self.hundredths < 100
    }

    /// The packed date and time: in seven, four and five bits the year since 1980, the
    /// month and the day, in five, six and five bits the hour, the minute and half the
    /// second.
    pub open spec fn packed(self) -> u32 {
        ((((self.year - 1980) * 512 + self.month * 32 + self.day) * 65536) + self.hour * 2048
            + self.minute * 32 + self.second / 2) as u32
    }

    /// Hundredths of a second since the even second.
    pub open spec fn increment(self) -> u8 {
        ((self.second % 2) * 100 + self.hundredths) as u8
    }

    /// The stored form: packed date and time, hundredths since the even second, offset.
    pub fn to_raw(&self) -> (r: (u32, u8, u8))
        requires
            self.wf(),
        ensures
            r == (self.packed(), self.increment(), self.utc_offset),
    {
        let date: u32 = (self.year as u32 - 1980) * 512 + self.month as u32 * 32 + self.day as u32;
        let time: u32 = self.hour as u32 * 2048 + self.minute as u32 * 32 + self.second as u32 / 2;
        (date * 65536 + time, (self.second % 2) * 100 + self.hundredths, self.utc_offset)
    }

    /// The moment of a stored form.
    pub open spec fn unpacked(ts: u32, increment: u8, utc_offset: u8) -> Self {
        ExFatTimestamp {
            year: (1980 + ts / 33554432) as u16,
            month: (ts / 2097152 % 16) as u8,
            day: (ts / 65536 % 32) as u8,
            hour: (ts / 2048 % 32) as u8,
            minute: (ts / 32 % 64) as u8,
            second: (ts % 32 * 2 + increment / 100) as u8,
            hundredths: increment % 100,
            utc_offset,
        }
    }

    /// The moment of a stored form.
    pub fn from_raw(ts: u32, increment: u8, utc_offset: u8) -> (r: Self)
        ensures
            r == Self::unpacked(ts, increment, utc_offset),
    {
        ExFatTimestamp {
            year: (1980 + ts / 33554432) as u16,
            month: (ts / 2097152 % 16) as u8,
            day: (ts / 65536 % 32) as u8,
            hour: (ts / 2048 % 32) as u8,
            minute: (ts / 32 % 64) as u8,
            second: (ts % 32 * 2 + increment as u32 / 100) as u8,
            hundredths: increment % 100,
            utc_offset,
        }
    }

    /// The moment of a calendar time in universal time. Years that cannot be stored are
    /// moved to the nearest that can.
    pub open spec fn of_civil(t: CivilTime) -> Self {
        ExFatTimestamp {
            year: (if t.year < 1980 {
                1980int
            } else if t.year > 2107 {
                2107int
            } else {
                t.year as int
            }) as u16,
            month: t.month as u8,
            day: t.day as u8,
            hour: t.hour as u8,
            minute: t.minute as u8,
            second: t.second as u8,
            hundredths: 0,
            utc_offset: 0x80,
        }
    }

    /// The moment of a calendar time in universal time.
    pub fn from_civil(t: CivilTime) -> (r: Self)
        requires
            t.wf(),
        ensures
            r == Self::of_civil(t),
            r.wf(),
    {
        let year: u16 = if t.year < 1980 {
            1980
        } else if t.year > 2107 {
            2107
        } else {
            t.year as u16
        };
        ExFatTimestamp {
            year,
            month: t.month as u8,
            day: t.day as u8,
            hour: t.hour as u8,
            minute: t.minute as u8,
            second: t.second as u8,
            hundredths: 0,
            utc_offset: 0x80,
        }
    }

    /// The present moment.
    pub fn now() -> (r: Self)
        ensures
            r.wf(),
            exists|t: CivilTime| t.wf() && r == #[trigger] Self::of_civil(t),
    {
        Self::from_civil(civil_now())
    }
}

/// A moment is read back as it was stored.
pub proof fn timestamp_round_trip(t: ExFatTimestamp)
    requires
        t.wf(),
    ensures
        ExFatTimestamp::unpacked(t.packed(), t.increment(), t.utc_offset) == t,
{
    let y = t.year - 1980;
    let date = y * 512 + t.month * 32 + t.day;
    let time = t.hour * 2048 + t.minute * 32 + t.second / 2;
    let ts = date * 65536 + time;
    assert(0 <= time < 65536);
    assert(t.packed() == ts);
    assert(ts / 65536 == date && ts % 65536 == time);
    assert(ts / 33554432 == date / 512);
    assert(ts / 2097152 == date / 32);
    assert(date / 512 == y);
    assert(date / 32 == y * 16 + t.month);
    assert(date % 32 == t.day);
    assert(ts / 2048 == date * 32 + t.hour);
    assert(ts / 32 == date * 2048 + t.hour * 64 + t.minute);
    assert(ts % 32 == t.second / 2);
}

} // verus!
