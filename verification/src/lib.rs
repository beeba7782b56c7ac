//! A staking ledger: accounts bond a fungible token, bonded amounts are
//! converted into a height-stamped membership weight that can be queried for
//! any past height, and unbonded amounts become claims that mature after a
//! waiting period.

pub mod claims;
pub mod denom;
pub mod duration;
pub mod error;
pub mod msg;
pub mod snapshot;
pub mod state;
pub mod table;
pub mod token;
