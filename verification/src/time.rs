//! Points in time, and how long ago they were.

use crate::layout::{plural, plural_of};
use crate::text::{decimal, push_decimal};
use vstd::prelude::*;

verus! {

pub const MINUTE: u64 = 60;

pub const HOUR: u64 = 3_600;

pub const DAY: u64 = 86_400;

/// A point in time: whole seconds since the start of 1970, negative before it, and
/// the nanoseconds on top of them.
#[derive(Clone, Copy, Debug, PartialEq, Eq)]
pub struct Timestamp {
    pub secs: i64,
    pub nanos: u32,
}

impl Timestamp {
    /// The nanoseconds since the start of 1970.
    pub open spec fn total(self) -> int {
        self.secs * 1_000_000_000 + self.nanos
    }
}

/// The nanoseconds from `then` to `now`; none where `then` is not in the past.
pub open spec fn elapsed(then: Timestamp, now: Timestamp) -> nat {
    if now.total() > then.total() {
        (now.total() - then.total()) as nat
    } else {
        0
    }
}

/// The nanoseconds from `then` to `now`; none where `then` is not in the past.
pub fn nanos_between(then: Timestamp, now: Timestamp) -> (nanos: u128)
    ensures
        nanos == elapsed(then, now),
{
    let a: i128 = then.secs as i128 * 1_000_000_000 + then.nanos as i128;
    let b: i128 = now.secs as i128 * 1_000_000_000 + now.nanos as i128;
    if b > a {
        (b - a) as u128
    } else {
        0
    }
}

/// Whether `a` is later than `b`.
pub fn later(a: Timestamp, b: Timestamp) -> (yes: bool)
    ensures
        yes == (a.total() > b.total()),
{
    nanos_between(b, a) > 0
}

/// The largest useful unit for an age of `secs` seconds, in seconds and by name; none
/// below two minutes.
pub open spec fn age_unit(secs: nat) -> Option<(nat, Seq<char>)> {
    if secs < 2 * MINUTE {
        None
    } else if secs < HOUR {
        Some((MINUTE as nat, "minute"@))
    } else if secs < DAY {
        Some((HOUR as nat, "hour"@))
    } else if secs < 60 * DAY {
        Some((DAY as nat, "day"@))
    } else if secs < 365 * DAY {
        Some(((30 * DAY) as nat, "month"@))
    } else {
        Some(((365 * DAY) as nat, "year"@))
    }
}

/// An age in words.
pub open spec fn age_text(secs: nat) -> Seq<char> {
    match age_unit(secs) {
        None => "just now"@,
        Some((unit, name)) => decimal(secs / unit) + " "@ + name + plural_of(secs / unit)
            + " ago"@,
    }
}

/// An age holds at least one of the unit that it is given in.
pub proof fn lemma_age_holds_its_unit(secs: nat)
    ensures
        age_unit(secs) matches Some((unit, name)) ==> 0 < unit <= secs && secs / unit >= 1,
{
    if let Some((unit, name)) = age_unit(secs) {
        assert(secs / unit >= 1) by (nonlinear_arith)
            requires
                0 < unit <= secs,
        ;
    }
}

/// How long before `now` the point `then` was.
pub fn ago(then: Timestamp, now: Timestamp) -> (text: String)
    ensures
        text@ == age_text(elapsed(then, now) / 1_000_000_000),
{
    let secs: u128 = nanos_between(then, now) / 1_000_000_000;
    let mut text = String::new();
    if secs < 2 * MINUTE as u128 {
        text.append("just now");
        return text;
    }
    let (n, unit): (u128, &str) = if secs < HOUR as u128 {
        (secs / MINUTE as u128, "minute")
    } else if secs < DAY as u128 {
        (secs / HOUR as u128, "hour")
    } else if secs < 60 * DAY as u128 {
        (secs / DAY as u128, "day")
    } else if secs < 365 * DAY as u128 {
        (secs / (30 * DAY as u128), "month")
    } else {
        (secs / (365 * DAY as u128), "year")
    };
    push_decimal(&mut text, n);
    text.append(" ");
    text.append(unit);
    text.append(plural(if n == 1 { 1 } else { 2 }));
    text.append(" ago");
    text
}

} // verus!
