use vstd::prelude::*;

verus! {

/// Milliseconds since an epoch that the host picks when it creates the server.
#[derive(Clone, Copy, PartialEq, Eq, Structural, Debug, Ord)]
pub struct Time(pub u64);

impl Time {
    /// A time `t` milliseconds after the epoch.
    pub fn from_millis(t: u64) -> (r: Time)
        ensures
            r.0 == t,
    {
        Time(t)
    }

    /// Milliseconds from `self` until `other`; zero when `other` is not later.
    pub fn millis_until(&self, other: Time) -> (r: u64)
        ensures
            r == if other.0 >= self.0 { (other.0 - self.0) as u64 } else { 0 },
    {
        other.0.saturating_sub(self.0)
    }

    /// `self` moved `ms` milliseconds later, held at the largest time.
    pub fn add_millis(self, ms: u64) -> (r: Time)
        ensures
            r.0 == if self.0 + ms <= u64::MAX { (self.0 + ms) as u64 } else { u64::MAX },
    {
        Time(self.0.saturating_add(ms))
    }

    /// The earlier of two times.
    pub fn min(self, other: Time) -> (r: Time)
        ensures
            r.0 == if self.0 <= other.0 { self.0 } else { other.0 },
    {
        if self.0 <= other.0 {
            self
        } else {
            other
        }
    }

    /// Whether `self` is at or after `other`.
    pub fn is_at_or_after(&self, other: Time) -> (r: bool)
        ensures
            r == (self.0 >= other.0),
    {
        self.0 >= other.0
    }
}

impl PartialOrd for Time {
    fn partial_cmp(&self, other: &Time) -> (r: Option<core::cmp::Ordering>) {
        if self.0 < other.0 {
            Some(core::cmp::Ordering::Less)
        } else if self.0 == other.0 {
            Some(core::cmp::Ordering::Equal)
        } else {
            Some(core::cmp::Ordering::Greater)
        }
    }
}

impl vstd::std_specs::cmp::PartialOrdSpecImpl for Time {
    open spec fn obeys_partial_cmp_spec() -> bool {
        true
    }

    open spec fn partial_cmp_spec(&self, other: &Time) -> Option<core::cmp::Ordering> {
        if self.0 < other.0 {
            Some(core::cmp::Ordering::Less)
        } else if self.0 == other.0 {
            Some(core::cmp::Ordering::Equal)
        } else {
            Some(core::cmp::Ordering::Greater)
        }
    }
}

} // verus!
