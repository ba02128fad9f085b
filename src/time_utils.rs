//! Conversions between Windows file times (100 ns ticks since 1601-01-01)
//! and the seconds/nanoseconds pairs stored by the compact scheme (seconds
//! since 1970-01-01, two's complement before that).
use vstd::prelude::*;

verus! {

/// Seconds between 1601-01-01 and 1970-01-01.
pub const EPOCH_DIFF_SECS: u64 = 11644473600;

/// 100 ns ticks per second.
pub const TICKS_PER_SEC: u64 = 10000000;

/// 100 ns ticks between 1601-01-01 and 1970-01-01.
pub const EPOCH_DIFF_TICKS: u64 = 116444736000000000;

/// A point in time as the compact scheme stores it.
#[derive(Clone, Copy, Debug, PartialEq, Eq, Structural)]
pub struct LxfsTime {
    pub tv_sec: u64,
    pub tv_nsec: u32,
}

impl LxfsTime {
    pub fn new(tv_sec: u64, tv_nsec: u32) -> (r: Self)
        ensures
            r == (LxfsTime { tv_sec, tv_nsec }),
    {
        LxfsTime { tv_sec, tv_nsec }
    }

    /// `YYYY-MM-DD hh:mm:ss.fffffff UTC`, or `None` where the time lies
    /// outside what the calendar can show.
    pub fn to_display_string(&self) -> (r: Option<String>)
        ensures
            r matches Some(s) ==> utc_time_text(self.tv_sec, self.tv_nsec) == Some(s@),
            r is None ==> utc_time_text(self.tv_sec, self.tv_nsec) is None,
    {
        format_utc(self.tv_sec, self.tv_nsec)
    }
}

/// The low and high halves of a Windows file time.
#[derive(Clone, Copy, Debug, PartialEq, Eq, Structural)]
pub struct FileTime {
    pub low_date_time: u32,
    pub high_date_time: u32,
}

/// The times Windows keeps for a file, each in 100 ns ticks since 1601.
#[derive(Clone, Copy, Debug, PartialEq, Eq, Structural)]
pub struct FileBasicInfo {
    pub creation_time: u64,
    pub last_access_time: u64,
    pub last_write_time: u64,
    pub change_time: u64,
}

/// The calendar text that the time crate gives for `sec` seconds (read as a
/// signed count) plus `nsec` nanoseconds after 1970-01-01 UTC.
pub uninterp spec fn utc_time_text(sec: u64, nsec: u32) -> Option<Seq<char>>;

/// Relies on time's `OffsetDateTime::from_unix_timestamp`, `checked_add` and
/// `format`: the text depends on the two numbers alone.
#[verifier::external_body]
fn format_utc(sec: u64, nsec: u32) -> (r: Option<String>)
    ensures
        r matches Some(s) ==> utc_time_text(sec, nsec) == Some(s@),
        r is None ==> utc_time_text(sec, nsec) is None,
{
    let fmt = time::format_description::parse(
        "[year]-[month]-[day] [hour]:[minute]:[second].[subsecond digits:7] UTC",
    ).ok()?;
    let odt = time::OffsetDateTime::from_unix_timestamp(sec as i64).ok()?;
    let odt = odt.checked_add(time::Duration::nanoseconds(nsec as i64))?;
    odt.format(&fmt).ok()
}

/// The ticks value of `lt`, modulo 2^64.
pub open spec fn ticks_of(lt: LxfsTime) -> u64 {
    ((lt.tv_sec * 10000000 + 116444736000000000 + lt.tv_nsec / 100) % 0x1_0000_0000_0000_0000) as u64
}

/// Seconds since 1970 of a ticks value, two's complement before 1970.
pub open spec fn unix_secs_of(t64: u64) -> u64 {
    let secs = t64 / 10000000;
    if secs < 11644473600 {
        (secs + 0x1_0000_0000_0000_0000 - 11644473600) as u64
    } else {
        (secs - 11644473600) as u64
    }
}

pub open spec fn lxfs_time_of(t64: u64) -> LxfsTime {
    LxfsTime { tv_sec: unix_secs_of(t64), tv_nsec: ((t64 % 10000000) * 100) as u32 }
}

pub fn lxfs_time_to_u64(lt: LxfsTime) -> (r: u64)
    ensures
        r == ticks_of(lt),
{
    let t: u128 = (lt.tv_sec as u128) * 10000000u128 + 116444736000000000u128 + (lt.tv_nsec
        / 100) as u128;
    (t % 0x1_0000_0000_0000_0000u128) as u64
}

pub fn u64_to_lxfs_time(t64: u64) -> (r: LxfsTime)
    ensures
        r == lxfs_time_of(t64),
{
    let sec = t64 / TICKS_PER_SEC;
    let ns100 = t64 % TICKS_PER_SEC;
    LxfsTime { tv_sec: sec.wrapping_sub(EPOCH_DIFF_SECS), tv_nsec: (ns100 as u32) * 100 }
}

pub fn u64_to_filetime(t64: u64) -> (r: FileTime)
    ensures
        r.low_date_time == t64 % 0x1_0000_0000,
        r.high_date_time == t64 / 0x1_0000_0000,
{
    FileTime {
        low_date_time: (t64 % 0x1_0000_0000) as u32,
        high_date_time: (t64 / 0x1_0000_0000) as u32,
    }
}

pub fn filetime_to_u64(ft: FileTime) -> (r: u64)
    ensures
        r == ft.low_date_time + ft.high_date_time * 0x1_0000_0000,
{
    ft.low_date_time as u64 + (ft.high_date_time as u64) * 0x1_0000_0000
}

pub fn lxfs_time_to_filetime(lt: LxfsTime) -> (r: FileTime)
    ensures
        r.low_date_time + r.high_date_time * 0x1_0000_0000 == ticks_of(lt),
{
    u64_to_filetime(lxfs_time_to_u64(lt))
}

pub fn filetime_to_lxfs_time(ft: FileTime) -> (r: LxfsTime)
    ensures
        r == lxfs_time_of((ft.low_date_time + ft.high_date_time * 0x1_0000_0000) as u64),
{
    u64_to_lxfs_time(filetime_to_u64(ft))
}

/// A time since 1970 whose ticks value fits 64 bits comes back unchanged
/// from ticks, to the 100 ns that ticks can hold.
pub proof fn lemma_time_round_trip(lt: LxfsTime)
    requires
        lt.tv_nsec < 1000000000,
        lt.tv_nsec % 100 == 0,
        lt.tv_sec * 10000000 + 116444736000000000 + lt.tv_nsec / 100 < 0x1_0000_0000_0000_0000,
    ensures
        lxfs_time_of(ticks_of(lt)) == lt,
{
    let t = lt.tv_sec * 10000000 + 116444736000000000 + lt.tv_nsec / 100;
    let q = lt.tv_sec + 11644473600;
    let r = lt.tv_nsec / 100;
    assert(t == q * 10000000 + r);
    assert(0 <= r < 10000000);
    assert(t / 10000000 == q && t % 10000000 == r) by (nonlinear_arith)
        requires
            t == q * 10000000 + r,
            0 <= r < 10000000,
    ;
    assert(r * 100 == lt.tv_nsec);
}

impl From<u64> for LxfsTime {
    /// The time a ticks value stands for.
    fn from(t64: u64) -> (r: LxfsTime) {
        u64_to_lxfs_time(t64)
    }
}

impl vstd::std_specs::convert::FromSpecImpl<u64> for LxfsTime {
    open spec fn obeys_from_spec() -> bool {
        true
    }

    open spec fn from_spec(t64: u64) -> LxfsTime {
        lxfs_time_of(t64)
    }
}

impl From<(u64, u32)> for LxfsTime {
    fn from(v: (u64, u32)) -> (r: LxfsTime) {
        LxfsTime { tv_sec: v.0, tv_nsec: v.1 }
    }
}

impl vstd::std_specs::convert::FromSpecImpl<(u64, u32)> for LxfsTime {
    open spec fn obeys_from_spec() -> bool {
        true
    }

    open spec fn from_spec(v: (u64, u32)) -> LxfsTime {
        LxfsTime { tv_sec: v.0, tv_nsec: v.1 }
    }
}

impl From<FileTime> for LxfsTime {
    fn from(ft: FileTime) -> (r: LxfsTime) {
        filetime_to_lxfs_time(ft)
    }
}

impl vstd::std_specs::convert::FromSpecImpl<FileTime> for LxfsTime {
    open spec fn obeys_from_spec() -> bool {
        true
    }

    open spec fn from_spec(ft: FileTime) -> LxfsTime {
        lxfs_time_of((ft.low_date_time + ft.high_date_time * 0x1_0000_0000) as u64)
    }
}

impl LxfsTime {
    /// The seconds and nanoseconds as a pair.
    pub fn into_pair(self) -> (r: (u64, u32))
        ensures
            r == (self.tv_sec, self.tv_nsec),
    {
        (self.tv_sec, self.tv_nsec)
    }
}

} // verus!
