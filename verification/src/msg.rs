//! The messages and responses of the staking ledger, as plain values.

use vstd::prelude::*;

use crate::claims::Claim;
use crate::denom::Denom;
use crate::duration::Duration;

verus! {

/// Configuration given at creation.
pub struct InstantiateMsg {
    /// Denomination of the token to stake.
    pub denom: Denom,
    /// How many bonded tokens make one unit of weight.
    pub tokens_per_weight: u128,
    /// The least amount a first bond may bring.
    pub min_bond: u128,
    /// How long an unbonded amount waits before it can be claimed.
    pub unbonding_period: Duration,
    /// The admin may only add or remove hooks, nothing else.
    pub admin: Option<String>,
}

/// A notification from an external token contract that tokens arrived.
pub struct Cw20ReceiveMsg {
    /// Who sent the tokens to the token contract.
    pub sender: String,
    /// How many tokens arrived.
    pub amount: u128,
    /// The embedded message naming what to do with them.
    pub msg: Vec<u8>,
}

/// Every call that can change state.
pub enum ExecuteMsg {
    /// Bond all staking tokens sent with the message.
    Bond {},
    /// Start unbonding the given number of tokens; the sender loses their
    /// weight at once and can claim them after the unbonding period.
    Unbond { tokens: u128 },
    /// Collect every matured claim of the sender.
    Claim {},
    /// Change the admin.
    UpdateAdmin { admin: Option<String> },
    /// Register a hook to be told of membership changes.  Admin only.
    AddHook { addr: String },
    /// Remove a registered hook.  Admin only.
    RemoveHook { addr: String },
    /// A bond arriving through an external token contract's notification.
    Receive(Cw20ReceiveMsg),
}

/// What an embedded `Cw20ReceiveMsg::msg` may ask for.
pub enum ReceiveMsg {
    /// Bond the tokens that arrived.
    Bond {},
}

/// Every read-only question.
pub enum QueryMsg {
    /// The tokens of an address still waiting out their unbonding period.
    Claims { address: String },
    /// The number of tokens an address has bonded.
    Staked { address: String },
    /// The current admin, if one is set.
    Admin {},
    /// The sum of the weights of all members.
    TotalWeight {},
    /// The members in address order, `start_after` exclusive.
    ListMembers { start_after: Option<String>, limit: Option<u32> },
    /// One member's weight, as of a past height if one is given.
    Member { addr: String, at_height: Option<u64> },
    /// All registered hooks.
    Hooks {},
}

/// The answer to `QueryMsg::Staked`.
pub struct StakedResponse {
    pub stake: u128,
    pub denom: Denom,
}

/// The answer to `QueryMsg::Claims`.
pub struct ClaimsResponse {
    pub claims: Vec<Claim>,
}

/// One member with its current weight.
pub struct Member {
    pub addr: String,
    pub weight: u64,
}

/// One membership change, as reported to hooks: `None` stands for not being
/// a member.
pub struct MemberDiff {
    pub key: String,
    pub old: Option<u64>,
    pub new: Option<u64>,
}

} // verus!
