//! The seven-byte timestamp of Rock Ridge fields.

use crate::civil::{civil_from_timestamp, CivilTime};
#[allow(unused_imports)]
use crate::civil::{
    civil, civil_in_range, civil_time_is_unique, days_before_month, epoch_day,
    moments_have_a_civil_time, month_len, year_by_timestamp,
};
use vstd::prelude::*;

verus! {

/// A timestamp of a Rock Ridge field: year since 1900, month, day, hour, minute,
/// second, offset from Greenwich.
pub type RripTime = [u8; 7];

/// The bytes of a calendar time. Years outside 1900 to 2155 are moved to the nearer end.
pub open spec fn rrip_time_bytes(t: CivilTime) -> Seq<u8> {
    seq![
        (if t.year < 1900 {
            0int
        } else if t.year > 2155 {
            255int
        } else {
            t.year - 1900
        }) as u8,
        t.month as u8,
        t.day as u8,
        t.hour as u8,
        t.minute as u8,
        t.second as u8,
        0u8,
    ]
}

/// The bytes of a timestamp, or the fallback where there is none or the calendar does
/// not reach it.
pub open spec fn rrip_time_of(timestamp: Option<i64>, fallback: Seq<u8>) -> Seq<u8> {
    match timestamp {
        Some(secs) if civil_in_range(secs as int) => rrip_time_bytes(civil(secs as int)),
        _ => fallback,
    }
}

/// The bytes of a timestamp of the years 1900 to 2155 name that moment: counted in seconds from
/// the start of 1970, the day that the first three bytes give and the hours, minutes and seconds
/// of the next three make up the timestamp, and the offset from Greenwich is none. The fallback
/// plays no part.
pub proof fn stored_time_is_the_moment(secs: i64, fallback: Seq<u8>)
    requires
        86400 * epoch_day(1900, 1, 1) <= secs < 86400 * epoch_day(2156, 1, 1),
    ensures
        ({
            let b = rrip_time_of(Some(secs), fallback);
            &&& b.len() == 7
            &&& 86400 * epoch_day(1900 + b[0], b[1] as int, b[2] as int) + 3600 * b[3] + 60 * b[4]
                + b[5] == secs
            &&& 1 <= b[1] <= 12
            &&& 1 <= b[2] <= month_len(1900 + b[0], b[1] as int)
            &&& b[3] < 24
            &&& b[4] < 60
            &&& b[5] < 60
            &&& b[6] == 0
        }),
{
    assert(civil_in_range(secs as int)) by {
        reveal_with_fuel(days_before_month, 14);
    }
    moments_have_a_civil_time(secs as int);
    years_of_moments(secs as int);
}

/// A moment before 1900 has the first year that the bytes can hold, one after 2155 the last one;
/// the rest of its time stays. A moment that the calendar does not reach, or none at all, has the
/// fallback.
pub proof fn far_times_keep_the_rest(secs: i64, fallback: Seq<u8>)
    ensures
        rrip_time_of(None, fallback) == fallback,
        !civil_in_range(secs as int) ==> rrip_time_of(Some(secs), fallback) == fallback,
        civil_in_range(secs as int) ==> {
            let b = rrip_time_of(Some(secs), fallback);
            &&& b.len() == 7
            &&& secs < 86400 * epoch_day(1900, 1, 1) ==> b[0] == 0
            &&& secs >= 86400 * epoch_day(2156, 1, 1) ==> b[0] == 255
            &&& 3600 * b[3] + 60 * b[4] + b[5] == secs as int % 86400
            &&& b[3] < 24
            &&& b[4] < 60
            &&& b[5] < 60
            &&& b[6] == 0
        },
{
    if civil_in_range(secs as int) {
        moments_have_a_civil_time(secs as int);
        years_of_moments(secs as int);
    }
}

proof fn years_of_moments(secs: int)
    requires
        civil_in_range(secs),
    ensures
        secs < 86400 * epoch_day(1900, 1, 1) <==> civil(secs).year < 1900,
        secs < 86400 * epoch_day(2156, 1, 1) <==> civil(secs).year < 2156,
{
    moments_have_a_civil_time(secs);
    year_by_timestamp(civil(secs), 1900);
    year_by_timestamp(civil(secs), 2156);
}

/// The bytes of a calendar time. Years outside 1900 to 2155 are moved to the nearer end.
pub fn encode_rrip_time(t: CivilTime) -> (r: RripTime)
    ensures
        r@ == rrip_time_bytes(t),
        t.wf() && 1900 <= t.year <= 2155 ==> {
            &&& 1900 + r@[0] == t.year
            &&& r@[1] == t.month
            &&& r@[2] == t.day
            &&& 86400 * epoch_day(1900 + r@[0], r@[1] as int, r@[2] as int) + 3600 * r@[3] + 60
                * r@[4] + r@[5] == t.timestamp()
        },
{
    let year: u8 = if t.year < 1900 {
        0
    } else if t.year > 2155 {
        255
    } else {
        (t.year - 1900) as u8
    };
    let r: RripTime = [
        year,
        t.month as u8,
        t.day as u8,
        t.hour as u8,
        t.minute as u8,
        t.second as u8,
        0,
    ];
    assert(r@ =~= rrip_time_bytes(t));
    r
}

/// The bytes of a timestamp in seconds since the start of 1970, or the fallback where
/// there is none or the calendar does not reach it.
pub fn rrip_datetime(timestamp: Option<i64>, fallback: &RripTime) -> (r: RripTime)
    ensures
        r@ == rrip_time_of(timestamp, fallback@),
        timestamp matches Some(secs) ==> (86400 * epoch_day(1900, 1, 1) <= secs < 86400 * epoch_day(
            2156,
            1,
            1,
        ) ==> 86400 * epoch_day(1900 + r@[0], r@[1] as int, r@[2] as int) + 3600 * r@[3] + 60
            * r@[4] + r@[5] == secs),
{
    proof {
        if let Some(secs) = timestamp {
            if 86400 * epoch_day(1900, 1, 1) <= secs && secs < 86400 * epoch_day(2156, 1, 1) {
                stored_time_is_the_moment(secs, fallback@);
            }
        }
    }
    match timestamp {
        Some(secs) => match civil_from_timestamp(secs) {
            Some(t) => {
                proof {
                    civil_time_is_unique(t, civil(secs as int));
                }
                encode_rrip_time(t)
            },
            None => *fallback,
        },
        None => *fallback,
    }
}

} // verus!
