use vstd::prelude::*;

verus! {

/// A point in time, counted from the Unix epoch: whole seconds and the
/// nanoseconds within the last second.
#[derive(Clone, Copy, Debug, PartialEq, Eq, Structural)]
pub struct Timestamp {
    pub secs_since_epoch: u64,
    pub nanos_since_epoch: u32,
}

impl Timestamp {
    /// The strict order of time points: by seconds, then by nanoseconds.
    pub open spec fn spec_before(self, other: Timestamp) -> bool {
        self.secs_since_epoch < other.secs_since_epoch || (self.secs_since_epoch
            == other.secs_since_epoch && self.nanos_since_epoch < other.nanos_since_epoch)
    }

    /// Whether `self` comes strictly before `other`.
    pub fn is_before(&self, other: &Timestamp) -> (r: bool)
        ensures
            r == self.spec_before(*other),
    {
        self.secs_since_epoch < other.secs_since_epoch || (self.secs_since_epoch
            == other.secs_since_epoch && self.nanos_since_epoch < other.nanos_since_epoch)
    }
}

} // verus!
