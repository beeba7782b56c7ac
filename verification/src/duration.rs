//! Time primitives: a delta expressed in block heights or in seconds, a
//! point in time obtained by adding the delta to "now", and the block
//! information that the execution environment supplies once per call.

use vstd::prelude::*;

verus! {

/// What the execution environment reports as "now": the current block height
/// and the current timestamp, read exactly once per operation.
#[derive(Clone, Copy, Debug, PartialEq, Eq, Structural)]
pub struct BlockInfo {
    /// Monotonically increasing block height.
    pub height: u64,
    /// Timestamp of the block, in seconds.
    pub time: u64,
}

/// A delta of time, counted either in block heights or in seconds.
#[derive(Clone, Copy, Debug, PartialEq, Eq, Structural)]
pub enum Duration {
    /// A number of blocks.
    Height(u64),
    /// A number of seconds.
    Time(u64),
}

/// A point in time: a block height or a timestamp at which something happens.
#[derive(Clone, Copy, Debug, PartialEq, Eq, Structural)]
pub enum Expiration {
    /// Reached once the chain height is at or past this height.
    AtHeight(u64),
    /// Reached once the block time is at or past this timestamp, in seconds.
    AtTime(u64),
}

/// The point reached by letting `d` elapse from `block`.
pub open spec fn spec_after(d: Duration, block: BlockInfo) -> Expiration {
    match d {
        Duration::Height(h) => Expiration::AtHeight((block.height + h) as u64),
        Duration::Time(t) => Expiration::AtTime((block.time + t) as u64),
    }
}

/// Whether the point `e` has been reached at `block`.
pub open spec fn spec_is_expired(e: Expiration, block: BlockInfo) -> bool {
    match e {
        Expiration::AtHeight(h) => block.height >= h,
        Expiration::AtTime(t) => block.time >= t,
    }
}

impl Duration {
    /// The point in time reached once this delta has elapsed from `block`.
    pub fn after(&self, block: &BlockInfo) -> (r: Expiration)
        requires
            match *self {
                Duration::Height(h) => block.height + h <= u64::MAX,
                Duration::Time(t) => block.time + t <= u64::MAX,
            },
        ensures
            r == spec_after(*self, *block),
    {
        match self {
            Duration::Height(h) => Expiration::AtHeight(block.height + h),
            Duration::Time(t) => Expiration::AtTime(block.time + t),
        }
    }
}

impl Expiration {
    /// Whether this point has been reached at `block`.
    pub fn is_expired(&self, block: &BlockInfo) -> (r: bool)
        ensures
            r == spec_is_expired(*self, *block),
    {
        match self {
            Expiration::AtHeight(h) => block.height >= *h,
            Expiration::AtTime(t) => block.time >= *t,
        }
    }
}

} // verus!
