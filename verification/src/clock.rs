//! Moments and spans of time.
use vstd::prelude::*;
use vstd::string::*;
use crate::text;
use crate::text::{decimal_text, push_decimal};

verus! {

// ---------- Spans ----------

/// A span of time, in nanoseconds.
#[derive(Debug, Clone, Copy, PartialEq, Eq, Structural)]
pub struct Duration {
    pub nanos: u128,
}

impl Duration {
    /// The span in whole seconds.
    pub open spec fn secs(self) -> nat {
        (self.nanos / 1_000_000_000) as nat
    }

    /// The span in whole milliseconds.
    pub open spec fn millis(self) -> nat {
        (self.nanos / 1_000_000) as nat
    }

    /// A span of `secs` seconds.
    pub fn from_secs(secs: u64) -> (r: Duration)
        ensures
            r.nanos == secs * 1_000_000_000,
    {
        Duration { nanos: secs as u128 * 1_000_000_000 }
    }

    /// A span of `millis` milliseconds.
    pub fn from_millis(millis: u64) -> (r: Duration)
        ensures
            r.nanos == millis * 1_000_000,
    {
        Duration { nanos: millis as u128 * 1_000_000 }
    }

    /// The span in whole seconds.
    pub fn as_secs(&self) -> (r: u128)
        ensures
            r == self.secs(),
    {
        self.nanos / 1_000_000_000
    }

    /// The span in whole milliseconds.
    pub fn as_millis(&self) -> (r: u128)
        ensures
            r == self.millis(),
    {
        self.nanos / 1_000_000
    }
}

// ---------- Moments ----------

/// A moment, in nanoseconds since some moment before all others.
#[derive(Debug, Clone, Copy, PartialEq, Eq, Structural)]
pub struct Instant {
    pub nanos: u128,
}

/// The span from `earlier` to `later`; none at all if `later` is the earlier one.
pub open spec fn between(earlier: Instant, later: Instant) -> Duration {
    Duration {
        nanos: if earlier.nanos <= later.nanos {
            (later.nanos - earlier.nanos) as u128
        } else {
            0
        },
    }
}

impl Instant {
    /// The span since `earlier`; none at all if `earlier` is later.
    pub fn duration_since(&self, earlier: Instant) -> (r: Duration)
        ensures
            r == between(earlier, *self),
    {
        if earlier.nanos <= self.nanos {
            Duration { nanos: self.nanos - earlier.nanos }
        } else {
            Duration { nanos: 0 }
        }
    }
}

// ---------- Polling ----------

/// How long to wait before a task is looked at again, by what its server asks for: a second
/// where it asks for nothing, and a tenth of a second at least.
pub fn task_poll_interval(ms: Option<u64>) -> (r: Duration)
    ensures
        r.nanos == (match ms {
            Some(ms) => if ms < 100 {
                100_000_000
            } else {
                ms * 1_000_000
            },
            None => 1_000_000_000,
        }),
{
    let interval = match ms {
        Some(ms) => Duration::from_millis(ms),
        None => Duration::from_secs(1),
    };
    let minimum = Duration::from_millis(100);
    if interval.nanos < minimum.nanos {
        minimum
    } else {
        interval
    }
}

/// The milliseconds of a span, up to the greatest number.
pub open spec fn millis_within(duration: Duration) -> u64 {
    if duration.millis() <= u64::MAX {
        duration.millis() as u64
    } else {
        u64::MAX
    }
}

/// The milliseconds of a span, up to the greatest number.
pub fn duration_ms(duration: Duration) -> (r: u64)
    ensures
        r == millis_within(duration),
{
    let millis = duration.as_millis();
    if millis <= u64::MAX as u128 {
        millis as u64
    } else {
        u64::MAX
    }
}

/// Whole milliseconds come back from a span unchanged.
pub proof fn millis_come_back(ms: u64, duration: Duration)
    requires
        duration.nanos == ms * 1_000_000,
    ensures
        millis_within(duration) == ms,
{
}

// ---------- Display ----------

/// A span as it is shown: tenths of a second below ten seconds, seconds below a minute, and
/// minutes and seconds from there on.
pub open spec fn shown(duration: Duration) -> Seq<char> {
    if duration.nanos < 10_000_000_000 {
        let tenths = duration.millis() / 100;
        text::decimal(tenths / 10) + "."@ + text::decimal(tenths % 10) + "s"@
    } else if duration.nanos < 60_000_000_000 {
        text::decimal(duration.secs()) + "s"@
    } else {
        text::decimal(duration.secs() / 60) + "m "@ + text::decimal(duration.secs() % 60) + "s"@
    }
}

/// A span as it is shown.
pub fn compact_duration(duration: Duration) -> (r: String)
    ensures
        r@ == shown(duration),
{
    if duration.nanos < Duration::from_secs(10).nanos {
        let tenths: u128 = duration.as_millis() / 100;
        let mut out = decimal_text(tenths / 10);
        out.append(".");
        push_decimal(&mut out, tenths % 10);
        out.append("s");
        out
    } else if duration.nanos < Duration::from_secs(60).nanos {
        let mut out = decimal_text(duration.as_secs());
        out.append("s");
        out
    } else {
        let secs: u128 = duration.as_secs();
        let mut out = decimal_text(secs / 60);
        out.append("m ");
        push_decimal(&mut out, secs % 60);
        out.append("s");
        out
    }
}

/// The ten frames of the animation of activity.
pub open spec fn frames() -> Seq<char> {
    seq!['⠋', '⠙', '⠹', '⠸', '⠼', '⠴', '⠦', '⠧', '⠇', '⠏']
}

/// The frame that is shown after `elapsed`: each stays for 80 milliseconds.
pub open spec fn frame_at(elapsed: Duration) -> char {
    frames()[((elapsed.millis() as u128) as usize / 80) as int % 10]
}

/// The frame that is shown after `elapsed`.
pub fn animation_frame(elapsed: Duration) -> (r: char)
    ensures
        r == frame_at(elapsed),
{
    let millis = elapsed.as_millis();
    let step: usize = (millis as usize / 80) % 10;
    match step {
        0 => '⠋',
        1 => '⠙',
        2 => '⠹',
        3 => '⠸',
        4 => '⠼',
        5 => '⠴',
        6 => '⠦',
        7 => '⠧',
        8 => '⠇',
        _ => '⠏',
    }
}

/// `text` tells seconds and a tenth: `secs` whole seconds and `tenth` tenths.
pub open spec fn tells_tenths(text: Seq<char>, secs: nat, tenth: nat) -> bool {
    tenth < 10 && text == text::decimal(secs) + "."@ + text::decimal(tenth) + "s"@
}

/// `text` tells whole seconds.
pub open spec fn tells_secs(text: Seq<char>, secs: nat) -> bool {
    text == text::decimal(secs) + "s"@
}

/// `text` tells minutes and seconds.
pub open spec fn tells_minutes(text: Seq<char>, minutes: nat, secs: nat) -> bool {
    secs < 60 && text == text::decimal(minutes) + "m "@ + text::decimal(secs) + "s"@
}

/// A span is told by as many tenths, seconds, or minutes and seconds as have passed in it.
pub proof fn spans_are_told_as_they_have_passed(duration: Duration)
    ensures
        duration.nanos < 10_000_000_000 ==> exists|secs: nat, tenth: nat| #[trigger]
            tells_tenths(shown(duration), secs, tenth) && (10 * secs + tenth) * 100_000_000
                <= duration.nanos < (10 * secs + tenth + 1) * 100_000_000,
        10_000_000_000 <= duration.nanos < 60_000_000_000 ==> exists|secs: nat| #[trigger]
            tells_secs(shown(duration), secs) && secs * 1_000_000_000 <= duration.nanos < (secs + 1)
                * 1_000_000_000,
        60_000_000_000 <= duration.nanos ==> exists|minutes: nat, secs: nat| #[trigger]
            tells_minutes(shown(duration), minutes, secs) && (60 * minutes + secs) * 1_000_000_000
                <= duration.nanos < (60 * minutes + secs + 1) * 1_000_000_000,
{
    if duration.nanos < 10_000_000_000 {
        let tenths = duration.millis() / 100;
        assert(tells_tenths(shown(duration), tenths / 10, tenths % 10));
    } else if duration.nanos < 60_000_000_000 {
        assert(tells_secs(shown(duration), duration.secs()));
    } else {
        assert(tells_minutes(shown(duration), duration.secs() / 60, duration.secs() % 60));
    }
}

/// The time between two moments, added to the earlier one, leads to the later one.
pub proof fn spans_lead_from_moment_to_moment(earlier: Instant, later: Instant)
    ensures
        earlier.nanos <= later.nanos ==> earlier.nanos + between(earlier, later).nanos
            == later.nanos,
        later.nanos < earlier.nanos ==> between(earlier, later).nanos == 0,
{
}

/// Every 80 milliseconds the animation goes on to another frame, and back to the first from the
/// last; within them it stays.
pub proof fn frames_follow_each_other(a: Duration, b: Duration)
    requires
        a.millis() <= b.millis() <= u32::MAX,
    ensures
        b.millis() == a.millis() + 80 ==> frame_at(b) != frame_at(a),
        b.millis() == a.millis() + 800 ==> frame_at(b) == frame_at(a),
        a.millis() % 80 == 0 && b.millis() < a.millis() + 80 ==> frame_at(b) == frame_at(a),
{
    let i = a.millis() / 80;
    let j = b.millis() / 80;
    assert((a.millis() as u128) as usize == a.millis());
    assert((b.millis() as u128) as usize == b.millis());
    if b.millis() == a.millis() + 80 {
        assert(j == i + 1);
        assert(i % 10 != j % 10);
    }
    if b.millis() == a.millis() + 800 {
        assert(j == i + 10);
    }
}

} // verus!
