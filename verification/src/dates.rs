//! Dates of mail, as instants.
use crate::text::opt_text;
use vstd::prelude::*;

verus! {

/// The instant that an RFC 2822 date names, in seconds since the epoch and
/// nanoseconds, or `None` where the text is no such date: what
/// `chrono::DateTime::parse_from_rfc2822` makes of it.
pub uninterp spec fn instant_of(text: Seq<char>) -> Option<(i64, u32)>;

/// `chrono::DateTime::parse_from_rfc2822`, then `timestamp` and
/// `timestamp_subsec_nanos` of what it gave: both depend on the text alone.
#[verifier::external_body]
pub(crate) fn parse_instant(text: &str) -> (r: Option<(i64, u32)>)
    ensures
        r == instant_of(text@),
{
    match chrono::DateTime::parse_from_rfc2822(text) {
        Ok(date) => Some((date.timestamp(), date.timestamp_subsec_nanos())),
        Err(_) => None,
    }
}

/// Whether one instant comes before another.
pub open spec fn earlier(a: (i64, u32), b: (i64, u32)) -> bool {
    a.0 < b.0 || (a.0 == b.0 && a.1 < b.1)
}

/// The instant of a bound that is given and is a date.
pub open spec fn bound(text: Option<Seq<char>>) -> Option<(i64, u32)> {
    match text {
        Some(t) => instant_of(t),
        None => None,
    }
}

/// A window of time; either end may be open.
#[derive(Clone, Copy)]
pub struct Window {
    pub since: Option<(i64, u32)>,
    pub until: Option<(i64, u32)>,
}

/// The window between two dates. A bound that is not given, or is no date, leaves its
/// end open.
pub open spec fn window(since: Option<Seq<char>>, until: Option<Seq<char>>) -> Window {
    Window { since: bound(since), until: bound(until) }
}

impl Window {
    /// Whether an instant lies in the window.
    pub open spec fn holds(self, at: (i64, u32)) -> bool {
        &&& self.since is Some ==> !earlier(at, self.since->0)
        &&& self.until is Some ==> !earlier(self.until->0, at)
    }

    /// Whether a date text names an instant in the window.
    pub open spec fn holds_date(self, date: Seq<char>) -> bool {
        instant_of(date) is Some && self.holds(instant_of(date)->0)
    }

    /// The window between two dates. A bound that is not given, or is no date,
    /// leaves its end open.
    pub fn new(since: Option<&str>, until: Option<&str>) -> (r: Window)
        ensures
            r == window(opt_text(since), opt_text(until)),
    {
        let s: Option<(i64, u32)> = match since {
            Some(t) => parse_instant(t),
            None => None,
        };
        let u: Option<(i64, u32)> = match until {
            Some(t) => parse_instant(t),
            None => None,
        };
        Window { since: s, until: u }
    }

    /// Whether the window has no bound at all.
    pub fn is_open(&self) -> (r: bool)
        ensures
            r == (self.since is None && self.until is None),
    {
        self.since.is_none() && self.until.is_none()
    }

    /// Whether a date text names an instant in the window.
    pub fn admits(&self, date: &str) -> (r: bool)
        ensures
            r == self.holds_date(date@),
    {
        match parse_instant(date) {
            None => false,
            Some(at) => {
                if let Some(s) = self.since {
                    if is_earlier(at, s) {
                        return false;
                    }
                }
                if let Some(u) = self.until {
                    if is_earlier(u, at) {
                        return false;
                    }
                }
                true
            },
        }
    }
}

fn is_earlier(a: (i64, u32), b: (i64, u32)) -> (r: bool)
    ensures
        r == earlier(a, b),
{
    a.0 < b.0 || (a.0 == b.0 && a.1 < b.1)
}

/// The bounds of a window are in it, where the first is not later than the second.
pub proof fn law_bounds_are_inclusive(w: Window)
    requires
        w.since is Some && w.until is Some ==> !earlier(w.until->0, w.since->0),
    ensures
        w.since is Some ==> w.holds(w.since->0),
        w.until is Some ==> w.holds(w.until->0),
{
}

/// A mail without a date that can be read lies in no window, not even in one without
/// bounds.
pub proof fn law_undated_lies_in_no_window(w: Window, date: Seq<char>)
    requires
        instant_of(date) is None,
    ensures
        !w.holds_date(date),
{
}

/// A date lies between two dates that are given as texts exactly where it names an instant
/// that is not before the one the first names, where it is given and names one, and not
/// behind the one the second names, where that is given and names one.
pub proof fn law_window(since: Option<Seq<char>>, until: Option<Seq<char>>, date: Seq<char>)
    ensures
        window(since, until).holds_date(date) <==> ({
            &&& instant_of(date) matches Some(at)
            &&& match since {
                Some(t) => match instant_of(t) {
                    Some(s) => s.0 < at.0 || (s.0 == at.0 && s.1 <= at.1),
                    None => true,
                },
                None => true,
            }
            &&& match until {
                Some(t) => match instant_of(t) {
                    Some(u) => at.0 < u.0 || (at.0 == u.0 && at.1 <= u.1),
                    None => true,
                },
                None => true,
            }
        }),
        window(since, until).since == (match since {
            Some(t) => instant_of(t),
            None => None,
        }),
        window(since, until).until == (match until {
            Some(t) => instant_of(t),
            None => None,
        }),
{
}

} // verus!
