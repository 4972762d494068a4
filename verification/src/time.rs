//! Timestamps: the current time, and RFC 3339 text for it (through `chrono`).
use vstd::prelude::*;

use chrono::Datelike;

use crate::syllabus::opt_view;

verus! {

/// An instant: seconds since the Unix epoch, the nanoseconds within that second, and the
/// calendar day (days from the common era) it falls on in UTC.
pub struct Now {
    pub secs: i64,
    pub nanos: u32,
    pub day: i32,
}

/// A parsed RFC 3339 timestamp: the instant it names, and the calendar day it falls on in
/// its own offset.
pub struct Stamp {
    pub secs: i64,
    pub nanos: u32,
    pub day: i32,
}

/// `chrono::DateTime::<Utc>::from_timestamp(secs, nanos)` rendered with `to_rfc3339`, or
/// `None` when chrono cannot represent that instant.
pub uninterp spec fn rfc3339_of(secs: int, nanos: int) -> Option<Seq<char>>;

/// What `chrono::DateTime::parse_from_rfc3339(s)` yields: the timestamp, its sub-second
/// nanoseconds and the day of its local date counted from the common era; `None` when `s`
/// is not RFC 3339.
pub uninterp spec fn rfc3339_parsed(s: Seq<char>) -> Option<(int, int, int)>;

/// `format("%Y%m%d-%H%M%S")` of the UTC instant, or `None` when chrono cannot represent it.
pub uninterp spec fn compact_stamp_of(secs: int, nanos: int) -> Option<Seq<char>>;

/// `chrono::Utc::now()`. Chrono builds it with `DateTime::from_timestamp` from the system
/// clock's duration since the Unix epoch (panicking before the epoch), so the seconds are not
/// negative, the nanoseconds stay below one second, and the day count fits an `i32` (which
/// bounds the seconds); `from_timestamp` of an existing datetime's timestamp gives it back,
/// so its RFC 3339 text and its `%Y%m%d-%H%M%S` text exist. Which instant it is depends on the
/// clock.
#[verifier::external_body]
pub(crate) fn now() -> (n: Now)
    ensures
        0 <= n.secs < 86400 * 2147483648,
        n.nanos < 1_000_000_000,
        rfc3339_of(n.secs as int, n.nanos as int) is Some,
        compact_stamp_of(n.secs as int, n.nanos as int) is Some,
{
    let t = chrono::Utc::now();
    Now { secs: t.timestamp(), nanos: t.timestamp_subsec_nanos(), day: t.date_naive().num_days_from_ce() }
}

/// `chrono::DateTime::parse_from_rfc3339`, read back as timestamp, nanoseconds and local day.
#[verifier::external_body]
pub(crate) fn parse_rfc3339(s: &str) -> (r: Option<Stamp>)
    ensures
        match rfc3339_parsed(s@) {
            Some((secs, nanos, day)) => r matches Some(st) && st.secs == secs && st.nanos == nanos
                && st.day == day,
            None => r is None,
        },
{
    match chrono::DateTime::parse_from_rfc3339(s) {
        Ok(d) => Some(
            Stamp { secs: d.timestamp(), nanos: d.timestamp_subsec_nanos(), day: d.date_naive().num_days_from_ce() },
        ),
        Err(_) => None,
    }
}

/// `chrono::DateTime::<Utc>::from_timestamp`, rendered as RFC 3339 text.
#[verifier::external_body]
pub(crate) fn format_rfc3339(secs: i64, nanos: u32) -> (r: Option<String>)
    ensures
        opt_view(r) == rfc3339_of(secs as int, nanos as int),
{
    chrono::DateTime::<chrono::Utc>::from_timestamp(secs, nanos).map(|d| d.to_rfc3339())
}

/// `chrono::DateTime::<Utc>::from_timestamp`, rendered as `%Y%m%d-%H%M%S`.
#[verifier::external_body]
pub(crate) fn format_compact(secs: i64, nanos: u32) -> (r: Option<String>)
    ensures
        opt_view(r) == compact_stamp_of(secs as int, nanos as int),
{
    chrono::DateTime::<chrono::Utc>::from_timestamp(secs, nanos).map(|d| d.format("%Y%m%d-%H%M%S").to_string())
}

/// Whether instant `(s1, n1)` is at or before `(s2, n2)`.
pub open spec fn not_after(s1: int, n1: int, s2: int, n2: int) -> bool {
    s1 < s2 || (s1 == s2 && n1 <= n2)
}

/// Days until review for a topic sitting at level 1..=6. Tight at the start because the exam
/// is close; the tail exists so mastered material still resurfaces.
pub open spec fn review_days(level: nat) -> int {
    if level <= 1 {
        1
    } else if level == 2 {
        2
    } else if level == 3 {
        4
    } else if level == 4 {
        7
    } else if level == 5 {
        14
    } else {
        30
    }
}

pub fn review_interval(level: u8) -> (d: i64)
    ensures
        d == review_days(level as nat),
{
    if level <= 1 {
        1
    } else if level == 2 {
        2
    } else if level == 3 {
        4
    } else if level == 4 {
        7
    } else if level == 5 {
        14
    } else {
        30
    }
}

/// The current time, with the text a study record stores for it and the review date each
/// level of the ladder would schedule.
pub struct Clock {
    pub now: Now,
    pub now_text: String,
    /// `due[l - 1]` is the RFC 3339 instant `review_days(l)` days from now.
    pub due: Vec<String>,
}

impl Clock {
    /// Everything the clock holds agrees with `now`.
    pub open spec fn wf(&self) -> bool {
        &&& rfc3339_of(self.now.secs as int, self.now.nanos as int) == Some(self.now_text@)
        &&& self.due@.len() == 6
        &&& forall|l: int|
            1 <= l <= 6 ==> rfc3339_of(
                self.now.secs + 86400 * review_days(l as nat),
                self.now.nanos as int,
            ) == Some(#[trigger] self.due@[l - 1]@)
    }

    /// The clock for `now`; `None` when a review date falls outside what chrono represents.
    pub fn at(now: Now) -> (r: Option<Clock>)
        requires
            0 <= now.secs < 86400 * 2147483648,
        ensures
            r matches Some(c) ==> c.wf() && c.now == now,
            r is None ==> rfc3339_of(now.secs as int, now.nanos as int) is None || exists|l: int|
                1 <= l <= 6 && rfc3339_of(now.secs + 86400 * #[trigger] review_days(l as nat), now.nanos as int)
                    is None,
    {
        let now_text = match format_rfc3339(now.secs, now.nanos) {
            Some(t) => t,
            None => return None,
        };
        let mut due: Vec<String> = Vec::new();
        let mut level: u8 = 1;
        while level <= 6
            invariant
                1 <= level <= 7,
                0 <= now.secs < 86400 * 2147483648,
                due@.len() == level - 1,
                forall|l: int|
                    1 <= l < level ==> rfc3339_of(now.secs + 86400 * review_days(l as nat), now.nanos as int)
                        == Some(#[trigger] due@[l - 1]@),
            decreases 7 - level,
        {
            let days = review_interval(level);
            match format_rfc3339(now.secs + 86400 * days, now.nanos) {
                Some(t) => due.push(t),
                None => {
                    let ghost l = level as int;
                    assert(review_days(l as nat) == days);
                    assert(rfc3339_of(now.secs + 86400 * review_days(l as nat), now.nanos as int) is None);
                    return None;
                },
            }
            level += 1;
        }
        Some(Clock { now, now_text, due })
    }

    /// The clock for the current time, when every review date can be rendered: the time read
    /// is one chrono can render, and the clock is missing only when one of the review dates
    /// that many days after it falls outside what chrono represents.
    pub fn current() -> (r: Option<Clock>)
        ensures
            r matches Some(c) ==> c.wf() && 0 <= c.now.secs < 86400 * 2147483648 && c.now.nanos < 1_000_000_000,
            r is None ==> exists|n: Now, l: int|
                #![trigger rfc3339_of(n.secs + 86400 * review_days(l as nat), n.nanos as int)]
                0 <= n.secs < 86400 * 2147483648 && n.nanos < 1_000_000_000 && rfc3339_of(
                    n.secs as int,
                    n.nanos as int,
                ) is Some && 1 <= l <= 6 && rfc3339_of(n.secs + 86400 * review_days(l as nat), n.nanos as int)
                    is None,
    {
        let n = now();
        let r = Self::at(n);
        proof {
            if r is None {
                let l = choose|l: int|
                    1 <= l <= 6 && rfc3339_of(n.secs + 86400 * #[trigger] review_days(l as nat), n.nanos as int)
                        is None;
                assert(rfc3339_of(n.secs + 86400 * review_days(l as nat), n.nanos as int) is None);
            }
        }
        r
    }
}

/// `t` is the RFC 3339 text of some instant, as chrono writes it: what a clock reading stamps.
pub open spec fn clock_text(t: Seq<char>) -> bool {
    exists|n: Now| rfc3339_of(n.secs as int, n.nanos as int) == Some(t)
}

/// The current time as RFC 3339 text.
pub fn current_rfc3339() -> (t: String)
    ensures
        clock_text(t@),
{
    let n = now();
    match format_rfc3339(n.secs, n.nanos) {
        Some(t) => t,
        None => String::new(),
    }
}


/// The review ladder: a topic at level 1, 2, 3, 4, 5 or 6 waits 1, 2, 4, 7, 14 or 30 days
/// before its next review, so each level waits strictly longer than the one below it.
pub proof fn lemma_review_ladder()
    ensures
        review_days(1) == 1,
        review_days(2) == 2,
        review_days(3) == 4,
        review_days(4) == 7,
        review_days(5) == 14,
        review_days(6) == 30,
        forall|a: nat, b: nat| 1 <= a < b <= 6 ==> #[trigger] review_days(a) < #[trigger] review_days(b),
{
}

} // verus!
