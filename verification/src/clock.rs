//! Calendar timestamps and their packed form in a directory entry.
use vstd::prelude::*;

verus! {

/// An instant in local time, to the second.
#[derive(Clone, Copy, Debug, PartialEq, Eq, Structural)]
pub struct Timestamp {
    /// Calendar year minus 1970.
    pub year_since_1970: u8,
    /// Calendar month minus one.
    pub zero_indexed_month: u8,
    /// Day of the month minus one.
    pub zero_indexed_day: u8,
    pub hours: u8,
    pub minutes: u8,
    pub seconds: u8,
}

impl Timestamp {
    /// Every field lies in its calendar range.
    pub open spec fn wf(&self) -> bool {
        &&& self.zero_indexed_month < 12
        &&& self.zero_indexed_day < 31
        &&& self.hours < 24
        &&& self.minutes < 60
        &&& self.seconds < 60
    }

    /// The packed time of day: hours, minutes and two-second steps.
    pub open spec fn fat_time(&self) -> int {
        self.hours * 2048 + self.minutes * 32 + self.seconds / 2
    }

    /// The packed date. Years count from 1980 in seven bits; a year before
    /// 1980 is stored as 1980.
    pub open spec fn fat_date(&self) -> int {
        (if self.year_since_1970 < 10 {
            0
        } else {
            (self.year_since_1970 - 10) % 128
        }) * 512 + (self.zero_indexed_month + 1) * 32 + (self.zero_indexed_day + 1)
    }

    /// The four bytes of a directory entry's time and date fields.
    pub open spec fn fat_bytes(&self) -> Seq<u8> {
        seq![
            (self.fat_time() % 256) as u8,
            (self.fat_time() / 256) as u8,
            (self.fat_date() % 256) as u8,
            (self.fat_date() / 256) as u8,
        ]
    }

    /// The timestamp that a packed date and time stand for. A month or day
    /// of zero reads as the first.
    pub open spec fn unpacked(date: int, time: int) -> Timestamp {
        let month = (date / 32) % 16;
        let day = date % 32;
        Timestamp {
            year_since_1970: (10 + date / 512) as u8,
            zero_indexed_month: (if month == 0 {
                0
            } else {
                month - 1
            }) as u8,
            zero_indexed_day: (if day == 0 {
                0
            } else {
                day - 1
            }) as u8,
            hours: (time / 2048) as u8,
            minutes: ((time / 32) % 64) as u8,
            seconds: ((time % 32) * 2) as u8,
        }
    }

    /// Midnight on 1 January 1970.
    pub open spec fn epoch() -> Timestamp {
        Timestamp {
            year_since_1970: 0,
            zero_indexed_month: 0,
            zero_indexed_day: 0,
            hours: 0,
            minutes: 0,
            seconds: 0,
        }
    }

    /// Whether every field lies in its calendar range.
    pub fn is_valid(&self) -> (b: bool)
        ensures
            b == self.wf(),
    {
        self.zero_indexed_month < 12 && self.zero_indexed_day < 31 && self.hours < 24
            && self.minutes < 60 && self.seconds < 60
    }
}

/// `embedded_sdmmc::Timestamp::serialize_to_fat`: packs a timestamp into the
/// time and date words of a directory entry, each little-endian, time first.
/// On fields in their calendar ranges its shifts and masks are the sums
/// of `fat_time` and `fat_date`.
#[verifier::external_body]
pub(crate) fn pack_timestamp(ts: &Timestamp) -> (r: [u8; 4])
    requires
        ts.wf(),
    ensures
        r@ == ts.fat_bytes(),
{
    embedded_sdmmc::Timestamp {
        year_since_1970: ts.year_since_1970,
        zero_indexed_month: ts.zero_indexed_month,
        zero_indexed_day: ts.zero_indexed_day,
        hours: ts.hours,
        minutes: ts.minutes,
        seconds: ts.seconds,
    }.serialize_to_fat()
}

/// `embedded_sdmmc::Timestamp::from_fat`: unpacks the date and time words of
/// a directory entry. Its shifts and masks are the quotients and remainders
/// of `Timestamp::unpacked`.
#[verifier::external_body]
pub(crate) fn unpack_timestamp(date: u16, time: u16) -> (r: Timestamp)
    ensures
        r == Timestamp::unpacked(date as int, time as int),
{
    let ts = embedded_sdmmc::Timestamp::from_fat(date, time);
    Timestamp {
        year_since_1970: ts.year_since_1970,
        zero_indexed_month: ts.zero_indexed_month,
        zero_indexed_day: ts.zero_indexed_day,
        hours: ts.hours,
        minutes: ts.minutes,
        seconds: ts.seconds,
    }
}

/// A clock that always reads the epoch.
pub struct SdMmcClock;

impl SdMmcClock {
    /// The time now: always the epoch.
    pub fn get_timestamp(&self) -> (ts: Timestamp)
        ensures
            ts == Timestamp::epoch(),
            ts.wf(),
    {
        Timestamp {
            year_since_1970: 0,
            zero_indexed_month: 0,
            zero_indexed_day: 0,
            hours: 0,
            minutes: 0,
            seconds: 0,
        }
    }
}

} // verus!
