//! The staking engine: bonded stake per address, the membership weights
//! derived from it, the claims opened by unbonding, and the admin-gated hook
//! registry, driven as one state value so every operation is a single
//! transaction over all of them.

use vstd::prelude::*;

use crate::claims::{
    claims_sum, lemma_matured_sum_bounds, lemma_release_all_leaves_pending,
    lemma_release_conserves, matured_sum, pending_of, Claim, ClaimsLedger,
};
use crate::denom::Denom;
use crate::duration::{spec_after, BlockInfo, Duration};
use crate::error::ContractError;
use crate::msg::{InstantiateMsg, Member, MemberDiff, StakedResponse};
use crate::snapshot::{SnapshotMap, Strategy};
use crate::table::{key_cmp, key_lt, lemma_key_lt_asym, lemma_key_lt_irrefl, str_eq, sum_weights, tbl_get, KeyCmp, Table, TEntry};

verus! {

/// The configuration fixed at creation: the denomination, the conversion
/// ratio from stake to weight, the minimum first bond, and the unbonding
/// period.
pub struct Config {
    pub denom: Denom,
    pub tokens_per_weight: u128,
    pub min_bond: u128,
    pub unbonding_period: Duration,
}

/// The amount a ledger holds for `a`, `0` where it holds nothing.
pub open spec fn ledger_amt(m: Map<Seq<char>, int>, a: Seq<char>) -> int {
    if m.dom().contains(a) {
        m[a]
    } else {
        0
    }
}

/// The whole state of one staking deployment.
pub struct StakeContract {
    pub config: Config,
    /// The only address allowed to add or remove hooks, if one is set.
    pub admin: Option<String>,
    /// Subscribers told of every membership weight change, in registration
    /// order, each registered once.
    pub hooks: Vec<String>,
    /// Bonded tokens per address; an address with nothing bonded is absent.
    pub stake: Table<u128>,
    /// The weights derived from the stake, with their snapshot history.
    pub members: SnapshotMap,
    /// The pending withdrawals.
    pub claims: ClaimsLedger,
    /// All tokens ever bonded, per address.
    pub bonded: Ghost<Map<Seq<char>, int>>,
    /// All tokens ever unbonded, per address.
    pub unbonded: Ghost<Map<Seq<char>, int>>,
    /// All tokens ever released from matured claims, per address.
    pub released: Ghost<Map<Seq<char>, int>>,
}

impl StakeContract {
    /// The tokens `a` has bonded.
    pub open spec fn stake_of(&self, a: Seq<char>) -> int {
        match tbl_get(self.stake.entries@, a) {
            Some(v) => v as int,
            None => 0,
        }
    }

    /// The weight `a`'s stake converts to: stake divided by
    /// `tokens_per_weight`, rounded down.
    pub open spec fn spec_weight(&self, a: Seq<char>) -> int {
        self.stake_of(a) / (self.config.tokens_per_weight as int)
    }

    /// The membership entry that weight turns into: a zero weight is no
    /// entry at all.
    pub open spec fn weight_entry(&self, a: Seq<char>) -> Option<u64> {
        if self.spec_weight(a) == 0 {
            None
        } else {
            Some(self.spec_weight(a) as u64)
        }
    }

    /// The registered hooks, as character sequences.
    pub open spec fn hooks_view(&self) -> Seq<Seq<char>> {
        self.hooks@.map_values(|h: String| h@)
    }

    /// Whether the whole state is well formed.  Besides each store's own
    /// shape this ties them together: the total weight equals the sum of all
    /// weights, every membership entry is exactly the weight its stake
    /// converts to, each address's stake is what it bonded minus what it
    /// unbonded, and its open claims plus what it already released are
    /// exactly what it unbonded.
    pub open spec fn wf(&self) -> bool {
        &&& self.config.tokens_per_weight > 0
        &&& self.stake.sorted()
        &&& forall|i: int|
            0 <= i < self.stake.entries@.len() ==> (#[trigger] self.stake.entries@[i].val) > 0
        &&& self.members.wf()
        &&& self.members.strategy == Strategy::EveryBlock
        &&& self.claims.wf()
        &&& forall|a: Seq<char>| 0 <= #[trigger] self.spec_weight(a) <= u64::MAX
        &&& forall|a: Seq<char>| #[trigger] self.members.cur_of(a) == self.weight_entry(a)
        &&& forall|i: int, j: int|
            0 <= i < j < self.hooks@.len() ==> (#[trigger] self.hooks@[i])@ != (
            #[trigger] self.hooks@[j])@
        &&& forall|a: Seq<char>| #[trigger] self.stake_of(a) == ledger_amt(self.bonded@, a)
            - ledger_amt(self.unbonded@, a)
        &&& forall|a: Seq<char>| claims_sum(#[trigger] self.claims.claims_of(a)) + ledger_amt(
            self.released@,
            a,
        ) == ledger_amt(self.unbonded@, a)
        &&& forall|a: Seq<char>| #[trigger] ledger_amt(self.released@, a) >= 0
    }

    /// Creates a deployment from its configuration.  Fails exactly when
    /// `tokens_per_weight` is zero, which would make weight undefined.
    pub fn new(msg: InstantiateMsg) -> (r: Result<StakeContract, ContractError>)
        ensures
            msg.tokens_per_weight == 0 ==> r == Err::<StakeContract, ContractError>(
                ContractError::ZeroTokensPerWeight,
            ),
            msg.tokens_per_weight > 0 ==> match r {
                Ok(c) => {
                    &&& c.wf()
                    &&& c.config.denom@ == msg.denom@
                    &&& c.config.tokens_per_weight == msg.tokens_per_weight
                    &&& c.config.min_bond == msg.min_bond
                    &&& c.config.unbonding_period == msg.unbonding_period
                    &&& c.admin == msg.admin
                    &&& c.hooks@.len() == 0
                    &&& forall|a: Seq<char>| #[trigger] c.stake_of(a) == 0
                    &&& forall|a: Seq<char>|
                        #[trigger] c.claims.claims_of(a) == Seq::<Claim>::empty()
                    &&& c.members.total == 0
                    &&& c.members.watermark == 0
                },
                Err(_) => false,
            },
    {
        if msg.tokens_per_weight == 0 {
            return Err(ContractError::ZeroTokensPerWeight);
        }
        let c = StakeContract {
            config: Config {
                denom: msg.denom,
                tokens_per_weight: msg.tokens_per_weight,
                min_bond: msg.min_bond,
                unbonding_period: msg.unbonding_period,
            },
            admin: msg.admin,
            hooks: Vec::new(),
            stake: Table::new(),
            members: SnapshotMap::new(Strategy::EveryBlock),
            claims: ClaimsLedger::new(),
            bonded: Ghost(Map::empty()),
            unbonded: Ghost(Map::empty()),
            released: Ghost(Map::empty()),
        };
        proof {
            assert forall|a: Seq<char>| #[trigger] c.stake_of(a) == 0 by {
                assert(c.stake.spec_get(a) is None);
            }
            assert forall|a: Seq<char>| 0 <= #[trigger] c.spec_weight(a) <= u64::MAX by {
                assert(c.stake_of(a) == 0);
            }
            assert forall|a: Seq<char>| #[trigger] c.members.cur_of(a) == c.weight_entry(a) by {
                assert(c.stake_of(a) == 0);
                assert(c.members.cur_of(a) is None);
            }
        }
        Ok(c)
    }

    /// Bonds `amount` tokens of `denom` for `sender`: the stake grows, and
    /// where that moves the derived weight, the membership map, its history
    /// and the total move with it at `block.height`, and the change to hand
    /// to the hooks is returned.  Fails with `WrongDenom` when the funds are
    /// not the configured token, and with `BelowMinimumBond` when a first
    /// bond is under `min_bond`; a top-up has no minimum.
    #[verifier::rlimit(60)]
    pub fn bond(&mut self, block: &BlockInfo, sender: &str, amount: u128, denom: &Denom) -> (r:
        Result<Option<MemberDiff>, ContractError>)
        requires
            old(self).wf(),
            block.height >= old(self).members.watermark,
            denom@ == old(self).config.denom@ && !(old(self).stake_of(sender@) == 0 && amount < old(self).config.min_bond) ==> {
                &&& old(self).stake_of(sender@) + amount <= u128::MAX
                &&& (old(self).stake_of(sender@) + amount) / (old(self).config.tokens_per_weight as int) <= u64::MAX
                &&& old(self).members.total - old(self).spec_weight(sender@) + (old(self).stake_of(sender@) + amount) / (old(self).config.tokens_per_weight as int)
                    <= u64::MAX
            },
        ensures
            final(self).wf(),
            denom@ != old(self).config.denom@ ==> r == Err::<Option<MemberDiff>, ContractError>(
                ContractError::WrongDenom,
            ) && *final(self) == *old(self),
            denom@ == old(self).config.denom@ && old(self).stake_of(sender@) == 0 && amount < old(self).config.min_bond ==> r == Err::<Option<MemberDiff>, ContractError>(
                ContractError::BelowMinimumBond,
            ) && *final(self) == *old(self),
            denom@ == old(self).config.denom@ && !(old(self).stake_of(sender@) == 0 && amount < old(self).config.min_bond) ==> {
                &&& forall|a: Seq<char>|
                    final(self).stake_of(a) == if a == sender@ {
                        old(self).stake_of(a) + amount
                    } else {
                        old(self).stake_of(a)
                    }
                &&& forall|a: Seq<char>|
                    #[trigger] final(self).claims.claims_of(a) == old(self).claims.claims_of(a)
                &&& final(self).admin == old(self).admin
                &&& final(self).hooks == old(self).hooks
                &&& final(self).config == old(self).config
                &&& match r {
                    Ok(d) => match d {
                        Some(d) => {
                            &&& old(self).weight_entry(sender@) != final(self).weight_entry(sender@)
                            &&& d.key@ == sender@
                            &&& d.old == old(self).weight_entry(sender@)
                            &&& d.new == final(self).weight_entry(sender@)
                        },
                        None => old(self).weight_entry(sender@) == final(self).weight_entry(
                            sender@,
                        ),
                    },
                    Err(_) => false,
                }
                &&& final(self).members.total as int == old(self).members.total - old(self).spec_weight(sender@) + final(self).spec_weight(sender@)
                &&& forall|a: Seq<char>, hh: u64|
                    hh < block.height ==> #[trigger] final(self).members.weight_at_spec(a, hh)
                        == old(self).members.weight_at_spec(a, hh)
                &&& final(self).bonded@ == old(self).bonded@.insert(
                    sender@,
                    ledger_amt(old(self).bonded@, sender@) + amount,
                )
                &&& final(self).unbonded@ == old(self).unbonded@
                &&& final(self).released@ == old(self).released@
                &&& final(self).members.watermark <= block.height
            },
    {
        if !denom.same(&self.config.denom) {
            return Err(ContractError::WrongDenom);
        }
        let old_stake: u128 = match self.stake.get(sender) {
            Some(v) => *v,
            None => 0,
        };
        proof {
            if self.stake.spec_get(sender@) is Some {
                crate::table::lemma_tbl_get_index(self.stake.entries@, sender@);
            }
            assert(old_stake as int == old(self).stake_of(sender@));
        }
        if old_stake == 0 && amount < self.config.min_bond {
            return Err(ContractError::BelowMinimumBond);
        }
        let new_stake = old_stake + amount;
        if new_stake > 0 {
            self.stake.set(sender, new_stake);
        }
        proof {
            if new_stake == 0 {
                assert(old(self).stake.spec_get(sender@) is None);
            }
            assert forall|a: Seq<char>|
                #[trigger] tbl_get(self.stake.entries@, a) == (if a == sender@ {
                    if new_stake > 0 {
                        Some(new_stake)
                    } else {
                        None::<u128>
                    }
                } else {
                    tbl_get(old(self).stake.entries@, a)
                }) by {
                if new_stake > 0 {
                    assert(self.stake.spec_get(a) == if a == sender@ {
                        Some(new_stake)
                    } else {
                        old(self).stake.spec_get(a)
                    });
                }
            }
            if new_stake > 0 {
                self.lemma_stake_positive(old(self), sender@, new_stake);
            }
        }
        let diff = self.apply_weight_change(block, sender, old_stake, new_stake);
        proof {
            self.bonded@ = self.bonded@.insert(
                sender@,
                ledger_amt(self.bonded@, sender@) + amount,
            );
        }
        proof {
            assert forall|a: Seq<char>|
                self.stake_of(a) == (if a == sender@ {
                    old(self).stake_of(a) + amount
                } else {
                    old(self).stake_of(a)
                }) by {
                assert(tbl_get(self.stake.entries@, a) == if a == sender@ {
                    if new_stake > 0 {
                        Some(new_stake)
                    } else {
                        None::<u128>
                    }
                } else {
                    tbl_get(old(self).stake.entries@, a)
                });
            }
            assert forall|a: Seq<char>|
                claims_sum(#[trigger] self.claims.claims_of(a)) == claims_sum(
                    old(self).claims.claims_of(a),
                ) by {
                assert(self.claims.claims_of(a) == old(self).claims.claims_of(a));
            }
            self.lemma_ledgers_still_balanced(old(self), sender@, amount as int, 0, 0);
            assert forall|a: Seq<char>| 0 <= #[trigger] self.spec_weight(a) <= u64::MAX by {
                assert(0 <= old(self).spec_weight(a) <= u64::MAX);
                assert(self.stake_of(a) == if a == sender@ {
                    old(self).stake_of(a) + amount
                } else {
                    old(self).stake_of(a)
                });
            }
            assert forall|a: Seq<char>| #[trigger] self.members.cur_of(a) == self.weight_entry(
                a,
            ) by {
                if a != sender@ {
                    assert(self.members.cur_of(a) == self.weight_entry(a) || (a == sender@
                        && self.members.cur_of(a) == self.weight_entry(sender@)));
                }
            }
            assert forall|a: Seq<char>|
                #[trigger] final(self).claims.claims_of(a) == old(self).claims.claims_of(a) by {
                assert(self.claims.claims_of(a) == old(self).claims.claims_of(a));
            }
            assert forall|a: Seq<char>| claims_sum(#[trigger] self.claims.claims_of(a))
                <= u128::MAX by {
                assert(self.claims.claims_of(a) == old(self).claims.claims_of(a));
                assert(claims_sum(old(self).claims.claims_of(a)) <= u128::MAX);
            }
        }
        Ok(diff)
    }

    /// Starts unbonding `tokens` for `sender`: the stake shrinks, weight,
    /// history, total and hooks move as in a bond, and one new claim of
    /// `tokens` is opened that matures `unbonding_period` after `block`.
    /// Fails with `InsufficientStake` when `tokens` exceeds the stake.
    #[verifier::rlimit(60)]
    pub fn unbond(&mut self, block: &BlockInfo, sender: &str, tokens: u128) -> (r: Result<
        Option<MemberDiff>,
        ContractError,
    >)
        requires
            old(self).wf(),
            block.height >= old(self).members.watermark,
            tokens <= old(self).stake_of(sender@) ==> {
                &&& claims_sum(old(self).claims.claims_of(sender@)) + tokens <= u128::MAX
                &&& match old(self).config.unbonding_period {
                    Duration::Height(d) => block.height + d <= u64::MAX,
                    Duration::Time(d) => block.time + d <= u64::MAX,
                }
            },
        ensures
            final(self).wf(),
            tokens > old(self).stake_of(sender@) ==> r == Err::<Option<MemberDiff>, ContractError>(
                ContractError::InsufficientStake,
            ) && *final(self) == *old(self),
            tokens <= old(self).stake_of(sender@) ==> {
                &&& forall|a: Seq<char>|
                    final(self).stake_of(a) == if a == sender@ {
                        old(self).stake_of(a) - tokens
                    } else {
                        old(self).stake_of(a)
                    }
                &&& final(self).claims.claims_of(sender@) == old(self).claims.claims_of(
                    sender@,
                ).push(
                    Claim {
                        amount: tokens,
                        release_at: spec_after(old(self).config.unbonding_period, *block),
                    },
                )
                &&& forall|a: Seq<char>|
                    a != sender@ ==> #[trigger] final(self).claims.claims_of(a) == old(self).claims.claims_of(a)
                &&& final(self).admin == old(self).admin
                &&& final(self).hooks == old(self).hooks
                &&& final(self).config == old(self).config
                &&& match r {
                    Ok(d) => match d {
                        Some(d) => {
                            &&& old(self).weight_entry(sender@) != final(self).weight_entry(sender@)
                            &&& d.key@ == sender@
                            &&& d.old == old(self).weight_entry(sender@)
                            &&& d.new == final(self).weight_entry(sender@)
                        },
                        None => old(self).weight_entry(sender@) == final(self).weight_entry(
                            sender@,
                        ),
                    },
                    Err(_) => false,
                }
                &&& final(self).members.total as int == old(self).members.total - old(self).spec_weight(sender@) + final(self).spec_weight(sender@)
                &&& forall|a: Seq<char>, hh: u64|
                    hh < block.height ==> #[trigger] final(self).members.weight_at_spec(a, hh)
                        == old(self).members.weight_at_spec(a, hh)
                &&& final(self).unbonded@ == old(self).unbonded@.insert(
                    sender@,
                    ledger_amt(old(self).unbonded@, sender@) + tokens,
                )
                &&& final(self).bonded@ == old(self).bonded@
                &&& final(self).released@ == old(self).released@
                &&& final(self).members.watermark <= block.height
            },
    {
        let old_stake: u128 = match self.stake.get(sender) {
            Some(v) => *v,
            None => 0,
        };
        proof {
            if self.stake.spec_get(sender@) is Some {
                crate::table::lemma_tbl_get_index(self.stake.entries@, sender@);
            }
            assert(old_stake as int == old(self).stake_of(sender@));
        }
        if tokens > old_stake {
            return Err(ContractError::InsufficientStake);
        }
        let new_stake = old_stake - tokens;
        if new_stake == 0 {
            self.stake.remove(sender);
        } else {
            self.stake.set(sender, new_stake);
        }
        proof {
            assert forall|a: Seq<char>|
                #[trigger] tbl_get(self.stake.entries@, a) == (if a == sender@ {
                    if new_stake > 0 {
                        Some(new_stake)
                    } else {
                        None::<u128>
                    }
                } else {
                    tbl_get(old(self).stake.entries@, a)
                }) by {
                if new_stake == 0 {
                    assert(self.stake.spec_get(a) == if a == sender@ {
                        None::<u128>
                    } else {
                        old(self).stake.spec_get(a)
                    });
                } else {
                    assert(self.stake.spec_get(a) == if a == sender@ {
                        Some(new_stake)
                    } else {
                        old(self).stake.spec_get(a)
                    });
                }
            }
            if new_stake == 0 {
                self.lemma_stake_removed(old(self), sender@);
            } else {
                self.lemma_stake_positive(old(self), sender@, new_stake);
            }
            vstd::arithmetic::div_mod::lemma_div_is_ordered(
                new_stake as int,
                old(self).stake_of(sender@),
                old(self).config.tokens_per_weight as int,
            );
        }
        let diff = self.apply_weight_change(block, sender, old_stake, new_stake);
        let release_at = self.config.unbonding_period.after(block);
        let ghost claims_before = self.claims.claims_of(sender@);
        proof {
            assert(claims_before == old(self).claims.claims_of(sender@));
        }
        self.claims.create_claim(sender, tokens, release_at);
        proof {
            self.unbonded@ = self.unbonded@.insert(
                sender@,
                ledger_amt(self.unbonded@, sender@) + tokens,
            );
        }
        proof {
            let c = Claim {
                amount: tokens,
                release_at: spec_after(old(self).config.unbonding_period, *block),
            };
            crate::claims::lemma_claims_sum_push(old(self).claims.claims_of(sender@), c);
            assert forall|a: Seq<char>|
                self.stake_of(a) == (if a == sender@ {
                    old(self).stake_of(a) - tokens
                } else {
                    old(self).stake_of(a)
                }) by {
                assert(tbl_get(self.stake.entries@, a) == if a == sender@ {
                    if new_stake > 0 {
                        Some(new_stake)
                    } else {
                        None::<u128>
                    }
                } else {
                    tbl_get(old(self).stake.entries@, a)
                });
            }
            assert(self.claims.claims_of(sender@) == old(self).claims.claims_of(sender@).push(c));
            assert forall|a: Seq<char>|
                a != sender@ implies #[trigger] self.claims.claims_of(a) == old(
                    self,
                ).claims.claims_of(a) by {}
            assert forall|a: Seq<char>|
                claims_sum(#[trigger] self.claims.claims_of(a)) == (if a == sender@ {
                    claims_sum(old(self).claims.claims_of(a)) + tokens
                } else {
                    claims_sum(old(self).claims.claims_of(a))
                }) by {
                if a != sender@ {
                    assert(self.claims.claims_of(a) == old(self).claims.claims_of(a));
                }
            }
            self.lemma_ledgers_still_balanced(old(self), sender@, 0, tokens as int, 0);
            assert forall|a: Seq<char>| 0 <= #[trigger] self.spec_weight(a) <= u64::MAX by {
                assert(0 <= old(self).spec_weight(a) <= u64::MAX);
                assert(self.stake_of(a) == if a == sender@ {
                    old(self).stake_of(a) - tokens
                } else {
                    old(self).stake_of(a)
                });
                if a == sender@ {
                    vstd::arithmetic::div_mod::lemma_div_is_ordered(
                        self.stake_of(a),
                        old(self).stake_of(a),
                        old(self).config.tokens_per_weight as int,
                    );
                    vstd::arithmetic::div_mod::lemma_div_pos_is_pos(
                        self.stake_of(a),
                        old(self).config.tokens_per_weight as int,
                    );
                }
            }
            assert forall|a: Seq<char>| #[trigger] self.members.cur_of(a) == self.weight_entry(
                a,
            ) by {
                if a != sender@ {
                    assert(self.members.cur_of(a) == self.weight_entry(a) || (a == sender@
                        && self.members.cur_of(a) == self.weight_entry(sender@)));
                }
            }
            assert forall|a: Seq<char>| claims_sum(#[trigger] self.claims.claims_of(a))
                <= u128::MAX by {
                if a != sender@ {
                    assert(self.claims.claims_of(a) == old(self).claims.claims_of(a));
                    assert(claims_sum(old(self).claims.claims_of(a)) <= u128::MAX);
                }
            }
        }
        Ok(diff)
    }

    /// Collects every matured claim of `sender` at `block` and returns the
    /// amount to pay out; the pending claims stay untouched.  Fails with
    /// `NothingToClaim`, changing nothing, exactly when no claim has
    /// matured.
    pub fn claim(&mut self, block: &BlockInfo, sender: &str) -> (r: Result<u128, ContractError>)
        requires
            old(self).wf(),
        ensures
            final(self).wf(),
            matured_sum(old(self).claims.claims_of(sender@), *block) == 0 ==> r == Err::<
                u128,
                ContractError,
            >(ContractError::NothingToClaim) && *final(self) == *old(self),
            matured_sum(old(self).claims.claims_of(sender@), *block) != 0 ==> {
                &&& r == Ok::<u128, ContractError>(
                    matured_sum(old(self).claims.claims_of(sender@), *block) as u128,
                )
                &&& final(self).claims.claims_of(sender@) == pending_of(
                    old(self).claims.claims_of(sender@),
                    *block,
                )
                &&& forall|a: Seq<char>|
                    a != sender@ ==> #[trigger] final(self).claims.claims_of(a) == old(self).claims.claims_of(a)
                &&& final(self).stake == old(self).stake
                &&& final(self).members == old(self).members
                &&& final(self).admin == old(self).admin
                &&& final(self).hooks == old(self).hooks
                &&& final(self).config == old(self).config
                &&& final(self).released@ == old(self).released@.insert(
                    sender@,
                    ledger_amt(old(self).released@, sender@) + matured_sum(
                        old(self).claims.claims_of(sender@),
                        *block,
                    ),
                )
                &&& final(self).bonded@ == old(self).bonded@
                &&& final(self).unbonded@ == old(self).unbonded@
            },
    {
        let ghost s = old(self).claims.claims_of(sender@);
        proof {
            lemma_matured_sum_bounds(s, *block);
        }
        let res = self.claims.release_claims(sender, block, None);
        match res {
            Err(e) => {
                proof {
                    assert(*final(self) == *old(self));
                }
                Err(e)
            },
            Ok(amt) => {
                proof {
                    lemma_release_all_leaves_pending(s, *block, amt as int);
                    self.released@ = self.released@.insert(
                        sender@,
                        ledger_amt(self.released@, sender@) + amt,
                    );
                }
                proof {
                    lemma_release_conserves(s, *block, amt as int);
                    self.lemma_ledgers_still_balanced(old(self), sender@, 0, 0, amt as int);
                    assert forall|a: Seq<char>| #[trigger] self.members.cur_of(a)
                        == self.weight_entry(a) by {
                        assert(old(self).members.cur_of(a) == old(self).weight_entry(a));
                        assert(self.stake_of(a) == old(self).stake_of(a));
                    }
                    assert forall|a: Seq<char>| 0 <= #[trigger] self.spec_weight(a) <= u64::MAX by {
                        assert(self.stake_of(a) == old(self).stake_of(a));
                        assert(0 <= old(self).spec_weight(a) <= u64::MAX);
                    }
                }
                Ok(amt)
            },
        }
    }

    /// After one address's stores moved and the ghost ledgers were posted,
    /// the accounting clauses of well-formedness hold again.
    proof fn lemma_ledgers_still_balanced(
        &self,
        pre: &StakeContract,
        who: Seq<char>,
        bonded_delta: int,
        unbonded_delta: int,
        released_delta: int,
    )
        requires
            pre.wf(),
            bonded_delta >= 0,
            unbonded_delta >= 0,
            released_delta >= 0,
            forall|a: Seq<char>|
                #[trigger] ledger_amt(self.bonded@, a) == (if a == who {
                    ledger_amt(pre.bonded@, a) + bonded_delta
                } else {
                    ledger_amt(pre.bonded@, a)
                }),
            forall|a: Seq<char>|
                #[trigger] ledger_amt(self.unbonded@, a) == (if a == who {
                    ledger_amt(pre.unbonded@, a) + unbonded_delta
                } else {
                    ledger_amt(pre.unbonded@, a)
                }),
            forall|a: Seq<char>|
                #[trigger] ledger_amt(self.released@, a) == (if a == who {
                    ledger_amt(pre.released@, a) + released_delta
                } else {
                    ledger_amt(pre.released@, a)
                }),
            forall|a: Seq<char>|
                self.stake_of(a) == (if a == who {
                    pre.stake_of(a) + bonded_delta - unbonded_delta
                } else {
                    pre.stake_of(a)
                }),
            forall|a: Seq<char>|
                claims_sum(#[trigger] self.claims.claims_of(a)) == (if a == who {
                    claims_sum(pre.claims.claims_of(a)) + unbonded_delta - released_delta
                } else {
                    claims_sum(pre.claims.claims_of(a))
                }),
        ensures
            forall|a: Seq<char>| #[trigger] self.stake_of(a) == ledger_amt(self.bonded@, a)
                - ledger_amt(self.unbonded@, a),
            forall|a: Seq<char>| claims_sum(#[trigger] self.claims.claims_of(a)) + ledger_amt(
                self.released@,
                a,
            ) == ledger_amt(self.unbonded@, a),
            forall|a: Seq<char>| #[trigger] ledger_amt(self.released@, a) >= 0,
    {
        assert forall|a: Seq<char>| #[trigger] self.stake_of(a) == ledger_amt(self.bonded@, a)
            - ledger_amt(self.unbonded@, a) by {
            assert(pre.stake_of(a) == ledger_amt(pre.bonded@, a) - ledger_amt(pre.unbonded@, a));
        }
        assert forall|a: Seq<char>| claims_sum(#[trigger] self.claims.claims_of(a)) + ledger_amt(
            self.released@,
            a,
        ) == ledger_amt(self.unbonded@, a) by {
            assert(claims_sum(pre.claims.claims_of(a)) + ledger_amt(pre.released@, a) == ledger_amt(
                pre.unbonded@,
                a,
            ));
        }
        assert forall|a: Seq<char>| #[trigger] ledger_amt(self.released@, a) >= 0 by {
            assert(ledger_amt(pre.released@, a) >= 0);
        }
    }

    /// The stake store keeps only positive amounts after a write of one.
    proof fn lemma_stake_positive(&self, pre: &StakeContract, who: Seq<char>, v: u128)
        requires
            pre.wf(),
            v > 0,
            self.stake.sorted(),
            forall|k2: Seq<char>|
                #[trigger] tbl_get(self.stake.entries@, k2) == (if k2 == who {
                    Some(v)
                } else {
                    tbl_get(pre.stake.entries@, k2)
                }),
        ensures
            forall|i: int|
                0 <= i < self.stake.entries@.len() ==> (#[trigger] self.stake.entries@[i].val) > 0,
    {
        assert forall|i: int|
            0 <= i < self.stake.entries@.len() implies (
        #[trigger] self.stake.entries@[i].val) > 0 by {
            let k = self.stake.entries@[i].key@;
            crate::table::lemma_sorted_get_at(self.stake.entries@, i);
            if k != who {
                crate::table::lemma_tbl_get_index(pre.stake.entries@, k);
                let j = choose|j: int|
                    0 <= j < pre.stake.entries@.len() && (#[trigger] pre.stake.entries@[j].key)@
                        == k && tbl_get(pre.stake.entries@, k) == Some(pre.stake.entries@[j].val);
                assert(pre.stake.entries@[j].val > 0);
            }
        }
    }

    /// The stake store keeps only positive amounts after a removal.
    proof fn lemma_stake_removed(&self, pre: &StakeContract, who: Seq<char>)
        requires
            pre.wf(),
            self.stake.sorted(),
            forall|k2: Seq<char>|
                #[trigger] tbl_get(self.stake.entries@, k2) == (if k2 == who {
                    None::<u128>
                } else {
                    tbl_get(pre.stake.entries@, k2)
                }),
        ensures
            forall|i: int|
                0 <= i < self.stake.entries@.len() ==> (#[trigger] self.stake.entries@[i].val) > 0,
    {
        assert forall|i: int|
            0 <= i < self.stake.entries@.len() implies (
        #[trigger] self.stake.entries@[i].val) > 0 by {
            let k = self.stake.entries@[i].key@;
            crate::table::lemma_sorted_get_at(self.stake.entries@, i);
            if k != who {
                crate::table::lemma_tbl_get_index(pre.stake.entries@, k);
                let j = choose|j: int|
                    0 <= j < pre.stake.entries@.len() && (#[trigger] pre.stake.entries@[j].key)@
                        == k && tbl_get(pre.stake.entries@, k) == Some(pre.stake.entries@[j].val);
                assert(pre.stake.entries@[j].val > 0);
            }
        }
    }

    /// Moves the membership map to the weight the (already updated) stake of
    /// `sender` converts to, and reports the change for the hooks.  Where
    /// the derived weight did not change, nothing is written: dust below one
    /// weight unit causes no history entry and no notification.
    #[verifier::rlimit(60)]
    fn apply_weight_change(
        &mut self,
        block: &BlockInfo,
        sender: &str,
        old_stake: u128,
        new_stake: u128,
    ) -> (diff: Option<MemberDiff>)
        requires
            old(self).config.tokens_per_weight > 0,
            old(self).members.wf(),
            old(self).members.strategy == Strategy::EveryBlock,
            block.height >= old(self).members.watermark,
            old(self).stake_of(sender@) == new_stake,
            0 <= new_stake as int / (old(self).config.tokens_per_weight as int) <= u64::MAX,
            0 <= old_stake as int / (old(self).config.tokens_per_weight as int) <= u64::MAX,
            old(self).members.cur_of(sender@) == (if old_stake as int / (old(self).config.tokens_per_weight as int) == 0 {
                None::<u64>
            } else {
                Some((old_stake as int / (old(self).config.tokens_per_weight as int)) as u64)
            }),
            old(self).members.total - old_stake as int / (old(self).config.tokens_per_weight as int)
                + new_stake as int / (old(self).config.tokens_per_weight as int) <= u64::MAX,
            forall|a: Seq<char>| #[trigger] old(self).members.cur_of(a) == old(self).weight_entry(
                a,
            ) || a == sender@,
        ensures
            final(self).members.wf(),
            final(self).members.strategy == Strategy::EveryBlock,
            final(self).stake == old(self).stake,
            final(self).claims == old(self).claims,
            final(self).config == old(self).config,
            final(self).admin == old(self).admin,
            final(self).hooks == old(self).hooks,
            final(self).bonded == old(self).bonded,
            final(self).unbonded == old(self).unbonded,
            final(self).released == old(self).released,
            forall|a: Seq<char>| #[trigger] final(self).members.cur_of(a) == final(self).weight_entry(a) || (a == sender@ && final(self).members.cur_of(a) == final(self).weight_entry(sender@)),
            final(self).members.cur_of(sender@) == final(self).weight_entry(sender@),
            forall|a: Seq<char>|
                a != sender@ ==> #[trigger] final(self).members.cur_of(a) == old(self).members.cur_of(a),
            final(self).members.total as int == old(self).members.total - old_stake as int / (old(self).config.tokens_per_weight as int) + new_stake as int / (old(self).config.tokens_per_weight as int),
            block.height >= final(self).members.watermark,
            forall|a: Seq<char>, hh: u64|
                hh < block.height ==> #[trigger] final(self).members.weight_at_spec(a, hh) == old(self).members.weight_at_spec(a, hh),
            match diff {
                Some(d) => {
                    &&& old(self).members.cur_of(sender@) != final(self).weight_entry(sender@)
                    &&& d.key@ == sender@
                    &&& d.old == old(self).members.cur_of(sender@)
                    &&& d.new == final(self).weight_entry(sender@)
                },
                None => old(self).members.cur_of(sender@) == final(self).weight_entry(sender@),
            },
    {
        let tpw = self.config.tokens_per_weight;
        let old_w = old_stake / tpw;
        let new_w = new_stake / tpw;
        if old_w == new_w {
            proof {
                assert(self.weight_entry(sender@) == old(self).members.cur_of(sender@));
            }
            return None;
        }
        let old_entry: Option<u64> = if old_w == 0 {
            None
        } else {
            Some(old_w as u64)
        };
        let new_entry: Option<u64> = if new_w == 0 {
            self.members.remove(sender, block.height);
            None
        } else {
            self.members.set_weight(sender, new_w as u64, block.height);
            Some(new_w as u64)
        };
        proof {
            assert(self.members.cur_of(sender@) == new_entry);
            assert(self.weight_entry(sender@) == new_entry);
            assert forall|a: Seq<char>|
                #[trigger] self.members.cur_of(a) == self.weight_entry(a) || (a == sender@
                    && self.members.cur_of(a) == self.weight_entry(sender@)) by {
                if a != sender@ {
                    assert(self.members.cur_of(a) == old(self).members.cur_of(a));
                    assert(self.stake_of(a) == old(self).stake_of(a));
                    if old(self).members.cur_of(a) == old(self).weight_entry(a) {
                        assert(self.weight_entry(a) == old(self).weight_entry(a));
                    }
                }
            }
        }
        Some(
            MemberDiff {
                key: sender.to_owned(),
                old: old_entry,
                new: new_entry,
            },
        )
    }

    /// Whether `s` is the current admin.
    pub open spec fn is_admin(&self, s: Seq<char>) -> bool {
        match self.admin {
            Some(a) => a@ == s,
            None => false,
        }
    }

    /// Sets the admin to `new_admin`, which may be nobody, permanently
    /// disabling admin operations.  Only the current admin may call this; a
    /// deployment without an admin can never gain one here.
    pub fn update_admin(&mut self, sender: &str, new_admin: Option<String>) -> (r: Result<
        (),
        ContractError,
    >)
        requires
            old(self).wf(),
        ensures
            final(self).wf(),
            !old(self).is_admin(sender@) ==> r == Err::<(), ContractError>(
                ContractError::Unauthorized,
            ) && *final(self) == *old(self),
            old(self).is_admin(sender@) ==> r == Ok::<(), ContractError>(()) && final(self).admin
                == new_admin && final(self).hooks == old(self).hooks && final(self).stake == old(
                self,
            ).stake && final(self).members == old(self).members && final(self).claims == old(
                self,
            ).claims && final(self).config == old(self).config,
    {
        let authorized = match &self.admin {
            Some(a) => str_eq(a.as_str(), sender),
            None => false,
        };
        if !authorized {
            return Err(ContractError::Unauthorized);
        }
        self.admin = new_admin;
        proof {
            self.lemma_unrelated_fields_keep_wf(old(self));
        }
        Ok(())
    }

    /// Registers `addr` as a hook.  Admin only; registering a hook twice is
    /// an error, so the registry stays duplicate-free.
    #[verifier::loop_isolation(false)]
    pub fn add_hook(&mut self, sender: &str, addr: &str) -> (r: Result<(), ContractError>)
        requires
            old(self).wf(),
        ensures
            final(self).wf(),
            !old(self).is_admin(sender@) ==> r == Err::<(), ContractError>(
                ContractError::Unauthorized,
            ) && *final(self) == *old(self),
            old(self).is_admin(sender@) && old(self).hooks_view().contains(addr@) ==> r == Err::<
                (),
                ContractError,
            >(ContractError::HookDuplicate) && *final(self) == *old(self),
            old(self).is_admin(sender@) && !old(self).hooks_view().contains(addr@) ==> {
                &&& r == Ok::<(), ContractError>(())
                &&& final(self).hooks@.len() == old(self).hooks@.len() + 1
                &&& final(self).hooks_view() == old(self).hooks_view().push(addr@)
                &&& final(self).admin == old(self).admin
                &&& final(self).stake == old(self).stake
                &&& final(self).members == old(self).members
                &&& final(self).claims == old(self).claims
                &&& final(self).config == old(self).config
            },
    {
        let authorized = match &self.admin {
            Some(a) => str_eq(a.as_str(), sender),
            None => false,
        };
        if !authorized {
            return Err(ContractError::Unauthorized);
        }
        let n = self.hooks.len();
        let mut i: usize = 0;
        while i < n
            invariant
                i <= n,
                n == self.hooks@.len(),
                forall|j: int| 0 <= j < i ==> (#[trigger] self.hooks@[j])@ != addr@,
            decreases n - i,
        {
            if str_eq(self.hooks[i].as_str(), addr) {
                proof {
                    assert(old(self).hooks_view()[i as int] == addr@);
                }
                return Err(ContractError::HookDuplicate);
            }
            i = i + 1;
        }
        proof {
            assert forall|j: int|
                0 <= j < old(self).hooks_view().len() implies old(self).hooks_view()[j]
                    != addr@ by {
                assert(old(self).hooks_view()[j] == (old(self).hooks@[j])@);
            }
        }
        self.hooks.push(addr.to_owned());
        proof {
            assert(self.hooks_view() =~= old(self).hooks_view().push(addr@));
            self.lemma_unrelated_fields_keep_wf(old(self));
            assert forall|i2: int, j2: int|
                0 <= i2 < j2 < self.hooks@.len() implies (#[trigger] self.hooks@[i2])@ != (
            #[trigger] self.hooks@[j2])@ by {
                if j2 < self.hooks@.len() - 1 {
                    assert((old(self).hooks@[i2])@ != (old(self).hooks@[j2])@);
                } else {
                    assert((self.hooks@[i2])@ != addr@);
                }
            }
        }
        Ok(())
    }

    /// Removes the hook `addr`.  Admin only; removing an unknown hook fails
    /// with `HookNotFound`.
    #[verifier::loop_isolation(false)]
    pub fn remove_hook(&mut self, sender: &str, addr: &str) -> (r: Result<(), ContractError>)
        requires
            old(self).wf(),
        ensures
            final(self).wf(),
            !old(self).is_admin(sender@) ==> r == Err::<(), ContractError>(
                ContractError::Unauthorized,
            ) && *final(self) == *old(self),
            old(self).is_admin(sender@) && !old(self).hooks_view().contains(addr@) ==> r == Err::<
                (),
                ContractError,
            >(ContractError::HookNotFound) && *final(self) == *old(self),
            old(self).is_admin(sender@) && old(self).hooks_view().contains(addr@) ==> {
                &&& r == Ok::<(), ContractError>(())
                &&& exists|i: int|
                    {
                        &&& 0 <= i < old(self).hooks@.len()
                        &&& (#[trigger] old(self).hooks@[i])@ == addr@
                        &&& final(self).hooks@ == old(self).hooks@.remove(i)
                    }
                &&& final(self).admin == old(self).admin
                &&& final(self).stake == old(self).stake
                &&& final(self).members == old(self).members
                &&& final(self).claims == old(self).claims
                &&& final(self).config == old(self).config
            },
    {
        let authorized = match &self.admin {
            Some(a) => str_eq(a.as_str(), sender),
            None => false,
        };
        if !authorized {
            return Err(ContractError::Unauthorized);
        }
        let n = self.hooks.len();
        let mut i: usize = 0;
        while i < n
            invariant
                *self == *old(self),
                i <= n,
                n == self.hooks@.len(),
                forall|j: int| 0 <= j < i ==> (#[trigger] self.hooks@[j])@ != addr@,
            decreases n - i,
        {
            if str_eq(self.hooks[i].as_str(), addr) {
                proof {
                    assert(old(self).hooks_view().len() == old(self).hooks@.len());
                    assert(old(self).hooks_view()[i as int] == (old(self).hooks@[i as int])@);
                    assert(old(self).hooks_view()[i as int] == addr@);
                }
                let _removed = self.hooks.remove(i);
                proof {
                    self.lemma_unrelated_fields_keep_wf(old(self));
                    assert forall|i2: int, j2: int|
                        0 <= i2 < j2 < self.hooks@.len() implies (#[trigger] self.hooks@[i2])@ != (
                    #[trigger] self.hooks@[j2])@ by {
                        let a2 = if i2 < i {
                            i2
                        } else {
                            i2 + 1
                        };
                        let b2 = if j2 < i {
                            j2
                        } else {
                            j2 + 1
                        };
                        assert(self.hooks@[i2] == old(self).hooks@[a2]);
                        assert(self.hooks@[j2] == old(self).hooks@[b2]);
                        assert((old(self).hooks@[a2])@ != (old(self).hooks@[b2])@);
                    }
                }
                return Ok(());
            }
            i = i + 1;
        }
        proof {
            assert forall|j: int|
                0 <= j < old(self).hooks_view().len() implies old(self).hooks_view()[j]
                    != addr@ by {
                assert(old(self).hooks_view()[j] == (old(self).hooks@[j])@);
            }
        }
        Err(ContractError::HookNotFound)
    }

    /// A change of the admin or the hooks leaves every other clause of
    /// well-formedness untouched.
    proof fn lemma_unrelated_fields_keep_wf(&self, pre: &StakeContract)
        requires
            pre.wf(),
            self.config == pre.config,
            self.stake == pre.stake,
            self.members == pre.members,
            self.claims == pre.claims,
            self.bonded == pre.bonded,
            self.unbonded == pre.unbonded,
            self.released == pre.released,
        ensures
            self.config.tokens_per_weight > 0,
            self.stake.sorted(),
            forall|i: int|
                0 <= i < self.stake.entries@.len() ==> (#[trigger] self.stake.entries@[i].val) > 0,
            self.members.wf(),
            self.members.strategy == Strategy::EveryBlock,
            self.claims.wf(),
            forall|a: Seq<char>| 0 <= #[trigger] self.spec_weight(a) <= u64::MAX,
            forall|a: Seq<char>| #[trigger] self.members.cur_of(a) == self.weight_entry(a),
            forall|a: Seq<char>| #[trigger] self.stake_of(a) == ledger_amt(self.bonded@, a)
                - ledger_amt(self.unbonded@, a),
            forall|a: Seq<char>| claims_sum(#[trigger] self.claims.claims_of(a)) + ledger_amt(
                self.released@,
                a,
            ) == ledger_amt(self.unbonded@, a),
            forall|a: Seq<char>| #[trigger] ledger_amt(self.released@, a) >= 0,
    {
        assert forall|a: Seq<char>| 0 <= #[trigger] self.spec_weight(a) <= u64::MAX by {
            assert(0 <= pre.spec_weight(a) <= u64::MAX);
            assert(self.stake_of(a) == pre.stake_of(a));
        }
        assert forall|a: Seq<char>| #[trigger] self.members.cur_of(a) == self.weight_entry(a) by {
            assert(pre.members.cur_of(a) == pre.weight_entry(a));
            assert(self.stake_of(a) == pre.stake_of(a));
        }
        assert forall|a: Seq<char>| #[trigger] self.stake_of(a) == ledger_amt(self.bonded@, a)
            - ledger_amt(self.unbonded@, a) by {
            assert(pre.stake_of(a) == ledger_amt(pre.bonded@, a) - ledger_amt(pre.unbonded@, a));
            assert(self.stake_of(a) == pre.stake_of(a));
        }
    }

    /// The bonded stake of `address` and the configured denomination.
    pub fn staked(&self, address: &str) -> (r: StakedResponse)
        ensures
            r.stake as int == self.stake_of(address@),
            r.denom@ == self.config.denom@,
    {
        let stake = match self.stake.get(address) {
            Some(v) => *v,
            None => 0,
        };
        StakedResponse { stake, denom: self.config.denom.duplicate() }
    }

    /// The pending claims of `address`.
    pub fn query_claims(&self, address: &str) -> (r: crate::msg::ClaimsResponse)
        ensures
            r.claims@ == self.claims.claims_of(address@),
    {
        crate::msg::ClaimsResponse { claims: self.claims.claims_for(address) }
    }

    /// The current admin, if any.
    pub fn query_admin(&self) -> (r: Option<String>)
        ensures
            r == self.admin,
    {
        match &self.admin {
            Some(a) => Some(a.clone()),
            None => None,
        }
    }

    /// The sum of all members' weights.
    pub fn total_weight(&self) -> (r: u64)
        ensures
            r == self.members.total,
    {
        self.members.total_weight()
    }

    /// The registered hooks, in registration order.
    pub fn query_hooks(&self) -> (r: Vec<String>)
        ensures
            r@ == self.hooks@,
    {
        let mut out: Vec<String> = Vec::new();
        let n = self.hooks.len();
        let mut i: usize = 0;
        while i < n
            invariant
                i <= n,
                n == self.hooks@.len(),
                out@ =~= self.hooks@.take(i as int),
            decreases n - i,
        {
            out.push(self.hooks[i].clone());
            proof {
                assert(out@ =~= self.hooks@.take(i as int + 1));
            }
            i = i + 1;
        }
        proof {
            assert(self.hooks@.take(n as int) =~= self.hooks@);
        }
        out
    }

    /// The weight of `addr`: as of `at_height` where one is given, else the
    /// current one.
    pub fn member(&self, addr: &str, at_height: Option<u64>) -> (r: Option<u64>)
        ensures
            r == match at_height {
                Some(h) => self.members.weight_at_spec(addr@, h),
                None => self.members.cur_of(addr@),
            },
    {
        match at_height {
            Some(h) => self.members.weight_at(addr, h),
            None => match self.members.current.get(addr) {
                Some(w) => Some(*w),
                None => None,
            },
        }
    }

    /// The members whose address sorts strictly after `start_after`, in
    /// address order, at most `limit` of them (capped at `MAX_LIMIT`,
    /// `DEFAULT_LIMIT` when none is given).
    #[verifier::loop_isolation(false)]
    pub fn list_members(&self, start_after: Option<&str>, limit: Option<u32>) -> (r: Vec<Member>)
        ensures
            ({
                let entries = self.members.current.entries@;
                let lo = match start_after {
                    None => 0,
                    Some(sa) => lower_bound(entries, sa@),
                };
                let lim = match limit {
                    None => DEFAULT_LIMIT as int,
                    Some(l) => if l > MAX_LIMIT {
                        MAX_LIMIT as int
                    } else {
                        l as int
                    },
                };
                &&& r@.len() == (if lim <= entries.len() - lo {
                    lim
                } else {
                    entries.len() - lo
                })
                &&& forall|i: int|
                    0 <= i < r@.len() ==> (#[trigger] r@[i]).addr@ == entries[lo + i].key@
                        && r@[i].weight == entries[lo + i].val
            }),
    {
        let lim_u32: u32 = match limit {
            None => DEFAULT_LIMIT,
            Some(l) => if l > MAX_LIMIT {
                MAX_LIMIT
            } else {
                l
            },
        };
        let lim = lim_u32 as usize;
        let n = self.members.current.len();
        let ghost entries = self.members.current.entries@;
        let mut lo: usize = 0;
        match start_after {
            None => {},
            Some(sa) => {
                let mut stop = false;
                while lo < n && !stop
                    invariant
                        lo <= n,
                        forall|j: int| 0 <= j < lo ==> !key_lt(sa@, (#[trigger] entries[j]).key@),
                        stop ==> lo < n && key_lt(sa@, entries[lo as int].key@),
                    decreases n - lo + (if stop {
                        0int
                    } else {
                        1int
                    }),
                {
                    match key_cmp(sa, self.members.current.key_at(lo).as_str()) {
                        KeyCmp::Lt => {
                            stop = true;
                        },
                        KeyCmp::Eq => {
                            proof {
                                lemma_key_lt_irrefl(sa@);
                            }
                            lo = lo + 1;
                        },
                        KeyCmp::Gt => {
                            proof {
                                lemma_key_lt_asym(entries[lo as int].key@, sa@);
                            }
                            lo = lo + 1;
                        },
                    }
                }
                proof {
                    lemma_lower_bound_at(entries, sa@, lo as int);
                }
            },
        }
        let mut out: Vec<Member> = Vec::new();
        let mut i: usize = lo;
        while i < n && out.len() < lim
            invariant
                lo <= i <= n,
                out@.len() == i - lo,
                out@.len() <= lim,
                forall|j: int|
                    0 <= j < out@.len() ==> (#[trigger] out@[j]).addr@ == entries[lo + j].key@
                        && out@[j].weight == entries[lo + j].val,
            decreases n - i,
        {
            out.push(
                Member {
                    addr: self.members.current.key_at(i).clone(),
                    weight: *self.members.current.val_at(i),
                },
            );
            i = i + 1;
        }
        out
    }
}

/// How many members a listing returns when no limit is asked for.
pub const DEFAULT_LIMIT: u32 = 10;

/// The most members one listing ever returns.
pub const MAX_LIMIT: u32 = 30;

/// The first position whose key sorts strictly after `k`: everything from
/// there on is what a listing after `k` walks.
pub open spec fn lower_bound(s: Seq<TEntry<u64>>, k: Seq<char>) -> int
    decreases s.len(),
{
    if s.len() == 0 {
        0
    } else if key_lt(k, s[0].key@) {
        0
    } else {
        1 + lower_bound(s.skip(1), k)
    }
}

proof fn lemma_lower_bound_at(s: Seq<TEntry<u64>>, k: Seq<char>, i: int)
    requires
        0 <= i <= s.len(),
        forall|j: int| 0 <= j < i ==> !key_lt(k, (#[trigger] s[j]).key@),
        i == s.len() || key_lt(k, s[i].key@),
    ensures
        lower_bound(s, k) == i,
    decreases i,
{
    if i == 0 {
    } else {
        lemma_lower_bound_at(s.skip(1), k, i - 1);
        assert(!key_lt(k, s[0].key@));
    }
}

/// Round-trip accounting: what an address has at stake is exactly everything
/// it ever bonded minus everything it ever unbonded, and never negative.
pub proof fn lemma_stake_round_trip(c: &StakeContract, a: Seq<char>)
    requires
        c.wf(),
    ensures
        c.stake_of(a) == ledger_amt(c.bonded@, a) - ledger_amt(c.unbonded@, a),
        c.stake_of(a) >= 0,
{
}

/// Weight consistency: the recorded total weight is the sum of all members'
/// weights.
pub proof fn lemma_weight_consistency(c: &StakeContract)
    requires
        c.wf(),
    ensures
        c.members.total as int == sum_weights(c.members.current.entries@),
{
}

/// Claim conservation: an address's open claims plus everything it already
/// released add up to everything it ever unbonded.
pub proof fn lemma_claim_conservation(c: &StakeContract, a: Seq<char>)
    requires
        c.wf(),
    ensures
        claims_sum(c.claims.claims_of(a)) + ledger_amt(c.released@, a) == ledger_amt(
            c.unbonded@,
            a,
        ),
{
}

} // verus!