//! Points in time.
use crate::binary::Binary64;
use vstd::prelude::*;

verus! {

/// The number of nanoseconds in a second.
pub const NANOS_PER_SECOND: u64 = 1_000_000_000;

/// A point on a monotonic clock.
#[derive(Clone, Copy, Debug, PartialEq, Eq, Structural)]
pub struct Moment {
    /// Nanoseconds since the clock's start.
    pub nanos: u64,
}

/// The nanoseconds from `earlier` to `later`, none where `later` comes first.
pub open spec fn elapsed(earlier: Moment, later: Moment) -> nat {
    if later.nanos >= earlier.nanos {
        (later.nanos - earlier.nanos) as nat
    } else {
        0
    }
}

/// The number of seconds in `nanos` nanoseconds: the whole seconds plus the
/// fraction of a second that remains.
pub open spec fn seconds_in(nanos: nat) -> Binary64 {
    Binary64::of(nanos / NANOS_PER_SECOND as nat).sum(
        Binary64::of(nanos % NANOS_PER_SECOND as nat).quotient(
            Binary64::of(NANOS_PER_SECOND as nat),
        ),
    )
}

impl Moment {
    /// The nanoseconds since `earlier`, none where `earlier` lies ahead.
    pub fn since(self, earlier: Moment) -> (r: u64)
        ensures
            r == elapsed(earlier, self),
    {
        if self.nanos >= earlier.nanos {
            self.nanos - earlier.nanos
        } else {
            0
        }
    }
}

/// The number of seconds in `nanos` nanoseconds.
pub fn seconds(nanos: u64) -> (r: Binary64)
    ensures
        r == seconds_in(nanos as nat),
{
    let whole = Binary64::from_u64(nanos / NANOS_PER_SECOND);
    let rest = Binary64::from_u64(nanos % NANOS_PER_SECOND);
    whole.plus(rest.over(Binary64::from_u64(NANOS_PER_SECOND)))
}

/// A count divided by the seconds in some nanoseconds is a finite rate.
pub proof fn lemma_rate_is_a_number(count: nat, nanos: nat)
    requires
        0 < count <= u64::MAX,
        0 < nanos <= u64::MAX,
    ensures
        Binary64::of(count).quotient(seconds_in(nanos)).finite(),
        Binary64::of(count).quotient(seconds_in(nanos)).nonnegative(),
{
    crate::binary::lemma_rate_is_finite(
        count,
        nanos / NANOS_PER_SECOND as nat,
        nanos % NANOS_PER_SECOND as nat,
        NANOS_PER_SECOND as nat,
    );
}

/// A few seconds are a small number.
pub proof fn lemma_few_seconds(nanos: nat)
    requires
        0 < nanos < 7 * NANOS_PER_SECOND,
    ensures
        seconds_in(nanos).bounded(1077),
{
    let whole = nanos / NANOS_PER_SECOND as nat;
    let one = crate::binary::one_64();
    crate::binary::lemma_mixed_is_positive(
        whole,
        nanos % NANOS_PER_SECOND as nat,
        NANOS_PER_SECOND as nat,
    );
    vstd::arithmetic::power2::lemma2_to64();
    vstd::arithmetic::power2::lemma_pow2_adds(3, 1074);
    assert((whole + 1) * one <= 8 * one) by (nonlinear_arith)
        requires
            whole <= 6,
    ;
}

/// A point in time on the local calendar.
#[derive(Clone, Copy, Debug, PartialEq, Eq, Structural)]
pub struct LocalTime {
    /// Whole seconds of Unix time.
    pub unix_secs: i64,
    /// Nanoseconds past them.
    pub nanos: u32,
    /// Seconds by which local time is ahead of universal time.
    pub offset_secs: i32,
    /// The local day, counted from the first day of the common era.
    pub day: i32,
}

/// The first day of the calendar.
pub const FIRST_DAY: i32 = -95_746_129;

/// The last day of the calendar.
pub const LAST_DAY: i32 = 95_745_399;

/// The day `n` days before `day`, where the calendar has both.
pub open spec fn earlier(day: i32, n: nat) -> Option<int> {
    if FIRST_DAY <= day <= LAST_DAY && day - n >= FIRST_DAY {
        Some(day - n)
    } else {
        None
    }
}

/// Goes `n` days back from `day` by `NaiveDate::checked_sub_days` of `chrono`. The
/// contract claims that its calendar runs from `FIRST_DAY` to `LAST_DAY`, that the
/// result is the day `n` days before, and that there is none outside the calendar.
#[verifier::external_body]
pub(crate) fn days_before(day: i32, n: u64) -> (r: Option<i32>)
    ensures
        match (r, earlier(day, n as nat)) {
            (Some(d), Some(e)) => d == e,
            (None, None) => true,
            _ => false,
        },
{
    chrono::NaiveDate::from_num_days_from_ce_opt(day)
        .and_then(|date| date.checked_sub_days(chrono::Days::new(n)))
        .map(|date| chrono::Datelike::num_days_from_ce(&date))
}

/// Two decimal digits.
pub open spec fn two_digits(n: nat) -> Seq<char> {
    seq![(n / 10 + '0' as nat) as char, (n % 10 + '0' as nat) as char]
}

/// How an offset from universal time is written: sign, hours and minutes, and
/// seconds where there are any.
pub open spec fn offset_text(secs: int) -> Seq<char> {
    let a = if secs < 0 {
        -secs
    } else {
        secs
    };
    let sign = if secs < 0 {
        '-'
    } else {
        '+'
    };
    let minutes = seq![sign] + two_digits((a / 3600) as nat) + seq![':'] + two_digits(
        (a / 60 % 60) as nat,
    );
    if a % 60 == 0 {
        minutes
    } else {
        minutes + seq![':'] + two_digits((a % 60) as nat)
    }
}

/// Writes an offset from universal time by the `Display` of `FixedOffset` of
/// `chrono`. The contract claims how the text is made up for offsets of less than
/// a day, and that there is none for others.
#[verifier::external_body]
pub(crate) fn offset_label(secs: i32) -> (r: Option<String>)
    ensures
        match r {
            Some(text) => -86_400 < secs < 86_400 && text@ == offset_text(secs as int),
            None => !(-86_400 < secs < 86_400),
        },
{
    chrono::FixedOffset::east_opt(secs).map(|offset| offset.to_string())
}

/// The machine's time by `Local::now` of `chrono`. The contract claims that local
/// time is less than a day away from universal time, and that the calendar has the
/// day. The rest the machine's clock and time zone decide; `Local::now` panics where
/// that clock stands before 1970.
#[verifier::external_body]
pub(crate) fn local_now() -> (r: LocalTime)
    ensures
        -86_400 < r.offset_secs < 86_400,
        FIRST_DAY <= r.day <= LAST_DAY,
{
    let now = chrono::Local::now();
    LocalTime {
        unix_secs: now.timestamp(),
        nanos: now.timestamp_subsec_nanos(),
        offset_secs: now.offset().local_minus_utc(),
        day: chrono::Datelike::num_days_from_ce(&now.date_naive()),
    }
}

// ---------------------------------------------------------------------------
// Laws
// ---------------------------------------------------------------------------
/// Time is counted from the earlier to the later moment, and none passes backwards.
pub proof fn law_time_passes_forwards(a: Moment, b: Moment)
    ensures
        a.nanos <= b.nanos ==> a.nanos + elapsed(a, b) == b.nanos,
        a.nanos >= b.nanos ==> elapsed(a, b) == 0,
{
}

/// Seconds are counted whole, and what remains in parts of a thousand million.
pub proof fn law_seconds_and_their_parts(whole: nat, rest: nat)
    requires
        rest < 1_000_000_000,
    ensures
        seconds_in(whole * 1_000_000_000 + rest) == Binary64::of(whole).sum(
            Binary64::of(rest).quotient(Binary64::of(1_000_000_000)),
        ),
{
    let nanos = whole * 1_000_000_000 + rest;
    assert(nanos / 1_000_000_000 == whole);
    assert(nanos % 1_000_000_000 == rest);
}

/// Days are counted back one by one, as far as the calendar reaches.
pub proof fn law_days_are_counted_back(day: i32, n: nat)
    requires
        -95_746_129 <= day <= 95_745_399,
    ensures
        earlier(day, 0) == Some(day as int),
        day - n >= -95_746_129 ==> earlier(day, n) == Some(day - n),
        day - n < -95_746_129 ==> earlier(day, n) is None,
{
}

} // verus!
