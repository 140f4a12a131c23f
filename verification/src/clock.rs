//! Wall-clock time as plain milliseconds, and a restartable countdown timer.
//!
//! The clock itself is the only thing taken on trust here: everything that
//! *decides* based on a clock reading is a verified function of the reading.

use crate::text::spec_decimal;
use crate::text::u64_to_string;
use vstd::prelude::*;

verus! {

/// Relies on std::time::SystemTime::now and Duration::as_millis: the
/// milliseconds since the Unix epoch, saturating at zero if the system clock
/// reads earlier than the epoch. Nothing can be promised of the value.
#[verifier::external_body]
fn now_millis() -> (r: u64) {
    std::time::SystemTime::now()
        .duration_since(std::time::SystemTime::UNIX_EPOCH)
        .map(|d| d.as_millis() as u64)
        .unwrap_or(0)
}

/// A restartable countdown: `is_done` reports whether more than `duration_ms`
/// milliseconds of clock time have passed since the start mark.
pub struct Timer {
    /// Clock reading, in epoch milliseconds, when the timer last started.
    pub started_at_ms: u64,
    /// How long the timer runs.
    pub duration_ms: u64,
}

impl Timer {
    /// Whether the countdown `duration_ms` would be over at clock reading
    /// `now_ms` for a timer started at `started_at_ms`.
    pub open spec fn spec_done_at(self, now_ms: u64) -> bool {
        now_ms > self.started_at_ms && now_ms - self.started_at_ms > self.duration_ms
    }

    /// A timer of `millis` milliseconds, started now.
    pub fn from_millis(millis: u64) -> (t: Timer)
        ensures
            t.duration_ms == millis,
    {
        Timer { started_at_ms: now_millis(), duration_ms: millis }
    }

    /// Whether the countdown is over at the clock reading `now_ms`.
    pub fn done_at(&self, now_ms: u64) -> (r: bool)
        ensures
            r == self.spec_done_at(now_ms),
    {
        now_ms > self.started_at_ms && now_ms - self.started_at_ms > self.duration_ms
    }

    /// Whether the countdown is over now. The clock reading is outside
    /// anyone's control, so nothing relates the result to the timer's fields;
    /// `done_at` carries the exact decision rule.
    pub fn is_done(&self) -> bool {
        self.done_at(now_millis())
    }

    /// Restarts the countdown from the present moment, keeping the duration.
    pub fn reset(&mut self)
        ensures
            final(self).duration_ms == old(self).duration_ms,
    {
        self.started_at_ms = now_millis();
    }
}

/// The timestamp rendering of `secs` seconds and `millis` milliseconds:
/// the two numbers in decimal with a dot between them.
pub open spec fn spec_timestamp(secs: u64, millis: u64) -> Seq<char> {
    spec_decimal(secs as nat) + seq!['.'] + spec_decimal(millis as nat)
}

/// Renders a seconds/milliseconds pair as a timestamp.
pub fn format_timestamp(secs: u64, millis: u64) -> (s: String)
    ensures
        s@ == spec_timestamp(secs, millis),
{
    let mut s = u64_to_string(secs);
    proof {
        reveal_strlit(".");
    }
    s.append(".");
    let m = u64_to_string(millis);
    s.append(m.as_str());
    proof {
        assert(s@ =~= spec_timestamp(secs, millis));
    }
    s
}

/// The present wall-clock moment as a `seconds.milliseconds` string. The
/// moment itself is outside anyone's control; the rendering is exact.
pub fn get_ts() -> (s: String)
    ensures
        exists|secs: u64, millis: u64| millis < 1000 && s@ == spec_timestamp(secs, millis),
{
    let ms = now_millis();
    let secs = ms / 1000;
    let millis = ms % 1000;
    let s = format_timestamp(secs, millis);
    proof {
        assert(millis < 1000 && s@ == spec_timestamp(secs, millis));
    }
    s
}

} // verus!
