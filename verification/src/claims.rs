//! The claims ledger: per-address pending withdrawals, each with an amount
//! and a release time.  Claims are appended by unbonding and collected, once
//! matured, in first-created order, optionally up to a sub-amount with the
//! last collected claim split so its remainder keeps its release time.

use vstd::prelude::*;

use crate::duration::{spec_is_expired, BlockInfo, Expiration};
use crate::error::ContractError;
use crate::table::{tbl_get, Table};

verus! {

/// One pending withdrawal: an amount that becomes collectible at
/// `release_at`.
#[derive(Clone, Copy, Debug, PartialEq, Eq)]
pub struct Claim {
    pub amount: u128,
    pub release_at: Expiration,
}

/// The sum of all claim amounts.
pub open spec fn claims_sum(s: Seq<Claim>) -> int
    decreases s.len(),
{
    if s.len() == 0 {
        0
    } else {
        s[0].amount + claims_sum(s.skip(1))
    }
}

/// The sum of the amounts of the claims matured at `b`.
pub open spec fn matured_sum(s: Seq<Claim>, b: BlockInfo) -> int
    decreases s.len(),
{
    if s.len() == 0 {
        0
    } else {
        (if spec_is_expired(s[0].release_at, b) {
            s[0].amount as int
        } else {
            0
        }) + matured_sum(s.skip(1), b)
    }
}

/// The claims not yet matured at `b`, in stored order.
pub open spec fn pending_of(s: Seq<Claim>, b: BlockInfo) -> Seq<Claim>
    decreases s.len(),
{
    if s.len() == 0 {
        Seq::empty()
    } else if spec_is_expired(s[0].release_at, b) {
        pending_of(s.skip(1), b)
    } else {
        seq![s[0]] + pending_of(s.skip(1), b)
    }
}

/// What remains after releasing matured claims in first-created order, up to
/// `budget`: a matured claim within the budget is dropped, the one the budget
/// ends in is split and its remainder keeps its release time, and everything
/// else stays.
pub open spec fn spec_release(s: Seq<Claim>, b: BlockInfo, budget: int) -> Seq<Claim>
    decreases s.len(),
{
    if s.len() == 0 {
        Seq::empty()
    } else if !spec_is_expired(s[0].release_at, b) {
        seq![s[0]] + spec_release(s.skip(1), b, budget)
    } else if budget >= s[0].amount {
        spec_release(s.skip(1), b, budget - s[0].amount)
    } else if budget > 0 {
        seq![Claim { amount: (s[0].amount - budget) as u128, release_at: s[0].release_at }]
            + spec_release(s.skip(1), b, 0)
    } else {
        seq![s[0]] + spec_release(s.skip(1), b, 0)
    }
}

/// What a release with the given optional cap pays out: the whole matured
/// sum, or the cap where that is smaller.
pub open spec fn released_amount(s: Seq<Claim>, b: BlockInfo, limit: Option<u128>) -> int {
    let m = matured_sum(s, b);
    match limit {
        None => m,
        Some(l) => if l < m {
            l as int
        } else {
            m
        },
    }
}

pub proof fn lemma_claims_sum_nonneg(s: Seq<Claim>)
    ensures
        claims_sum(s) >= 0,
    decreases s.len(),
{
    if s.len() > 0 {
        lemma_claims_sum_nonneg(s.skip(1));
    }
}

pub proof fn lemma_matured_sum_bounds(s: Seq<Claim>, b: BlockInfo)
    ensures
        0 <= matured_sum(s, b) <= claims_sum(s),
    decreases s.len(),
{
    if s.len() > 0 {
        lemma_matured_sum_bounds(s.skip(1), b);
    }
}

/// Appending a claim adds its amount to the sum.
pub proof fn lemma_claims_sum_push(s: Seq<Claim>, c: Claim)
    ensures
        claims_sum(s.push(c)) == claims_sum(s) + c.amount,
    decreases s.len(),
{
    if s.len() == 0 {
        assert(s.push(c).skip(1) =~= Seq::<Claim>::empty());
        assert(s.push(c)[0] == c);
        assert(claims_sum(Seq::<Claim>::empty()) == 0);
    } else {
        lemma_claims_sum_push(s.skip(1), c);
        assert(s.push(c).skip(1) =~= s.skip(1).push(c));
        assert(s.push(c)[0] == s[0]);
    }
}

/// The sum splits across any cut of the list.
pub proof fn lemma_claims_sum_split(s: Seq<Claim>, i: int)
    requires
        0 <= i <= s.len(),
    ensures
        claims_sum(s) == claims_sum(s.take(i)) + claims_sum(s.skip(i)),
    decreases i,
{
    if i == 0 {
        assert(s.take(0) =~= Seq::<Claim>::empty());
        assert(s.skip(0) =~= s);
    } else {
        lemma_claims_sum_split(s.skip(1), i - 1);
        assert(s.take(i).skip(1) =~= s.skip(1).take(i - 1));
        assert(s.skip(1).skip(i - 1) =~= s.skip(i));
        assert(s.take(i)[0] == s[0]);
    }
}

/// Releasing conserves value: what remains plus what was paid out is what
/// was there, and no more than the matured sum is ever paid out.
pub proof fn lemma_release_conserves(s: Seq<Claim>, b: BlockInfo, budget: int)
    requires
        0 <= budget <= matured_sum(s, b),
    ensures
        claims_sum(spec_release(s, b, budget)) == claims_sum(s) - budget,
    decreases s.len(),
{
    lemma_matured_sum_bounds(s, b);
    if s.len() > 0 {
        let rest = s.skip(1);
        if !spec_is_expired(s[0].release_at, b) {
            lemma_release_conserves(rest, b, budget);
            assert((seq![s[0]] + spec_release(rest, b, budget)).skip(1) =~= spec_release(
                rest,
                b,
                budget,
            ));
        } else if budget >= s[0].amount {
            lemma_matured_sum_bounds(rest, b);
            lemma_release_conserves(rest, b, budget - s[0].amount);
        } else if budget > 0 {
            lemma_matured_sum_bounds(rest, b);
            lemma_release_conserves(rest, b, 0);
            let c = Claim { amount: (s[0].amount - budget) as u128, release_at: s[0].release_at };
            assert((seq![c] + spec_release(rest, b, 0)).skip(1) =~= spec_release(rest, b, 0));
        } else {
            lemma_matured_sum_bounds(rest, b);
            lemma_release_conserves(rest, b, 0);
            assert((seq![s[0]] + spec_release(rest, b, 0)).skip(1) =~= spec_release(rest, b, 0));
        }
    }
}

/// No premature release: every claim not yet matured survives a release
/// unchanged, in order.
pub proof fn lemma_no_premature_release(s: Seq<Claim>, b: BlockInfo, budget: int)
    ensures
        pending_of(spec_release(s, b, budget), b) == pending_of(s, b),
    decreases s.len(),
{
    if s.len() > 0 {
        let rest = s.skip(1);
        if !spec_is_expired(s[0].release_at, b) {
            lemma_no_premature_release(rest, b, budget);
            assert((seq![s[0]] + spec_release(rest, b, budget)).skip(1) =~= spec_release(
                rest,
                b,
                budget,
            ));
            assert(pending_of(seq![s[0]] + spec_release(rest, b, budget), b) =~= pending_of(s, b));
        } else if budget >= s[0].amount {
            lemma_no_premature_release(rest, b, budget - s[0].amount);
        } else if budget > 0 {
            lemma_no_premature_release(rest, b, 0);
            let c = Claim { amount: (s[0].amount - budget) as u128, release_at: s[0].release_at };
            assert((seq![c] + spec_release(rest, b, 0)).skip(1) =~= spec_release(rest, b, 0));
            assert(pending_of(seq![c] + spec_release(rest, b, 0), b) =~= pending_of(s, b));
        } else {
            lemma_no_premature_release(rest, b, 0);
            assert((seq![s[0]] + spec_release(rest, b, 0)).skip(1) =~= spec_release(rest, b, 0));
            assert(pending_of(seq![s[0]] + spec_release(rest, b, 0), b) =~= pending_of(s, b));
        }
    }
}

/// With no cap, a release leaves exactly the pending claims.
pub proof fn lemma_release_all_leaves_pending(s: Seq<Claim>, b: BlockInfo, budget: int)
    requires
        budget >= matured_sum(s, b),
        budget >= 0,
    ensures
        spec_release(s, b, budget) == pending_of(s, b),
    decreases s.len(),
{
    lemma_matured_sum_bounds(s, b);
    if s.len() > 0 {
        let rest = s.skip(1);
        lemma_matured_sum_bounds(rest, b);
        if !spec_is_expired(s[0].release_at, b) {
            lemma_release_all_leaves_pending(rest, b, budget);
        } else {
            lemma_release_all_leaves_pending(rest, b, budget - s[0].amount);
        }
    }
}

/// Per-address lists of pending claims.
pub struct ClaimsLedger {
    pub store: Table<Vec<Claim>>,
}

impl ClaimsLedger {
    /// The claims of `a`, oldest first.
    pub open spec fn claims_of(&self, a: Seq<char>) -> Seq<Claim> {
        match tbl_get(self.store.entries@, a) {
            Some(v) => v@,
            None => Seq::empty(),
        }
    }

    /// Whether the ledger is well formed: the store sorted, and every
    /// address's claims summing within the machine bound.
    pub open spec fn wf(&self) -> bool {
        &&& self.store.sorted()
        &&& forall|a: Seq<char>| claims_sum(#[trigger] self.claims_of(a)) <= u128::MAX
    }

    /// An empty ledger.
    pub fn new() -> (r: ClaimsLedger)
        ensures
            r.wf(),
            forall|a: Seq<char>| #[trigger] r.claims_of(a) == Seq::<Claim>::empty(),
    {
        let r = ClaimsLedger { store: Table::new() };
        proof {
            assert forall|a: Seq<char>| #[trigger] r.claims_of(a) == Seq::<Claim>::empty() by {
                assert(r.store.spec_get(a) is None);
            }
            assert forall|a: Seq<char>| claims_sum(#[trigger] r.claims_of(a)) <= u128::MAX by {
                assert(r.claims_of(a) == Seq::<Claim>::empty());
            }
        }
        r
    }

    /// Appends a claim of `amount` releasable at `release_at` for `addr`.
    /// Claims are never merged: each stays individually auditable.
    pub fn create_claim(&mut self, addr: &str, amount: u128, release_at: Expiration)
        requires
            old(self).wf(),
            claims_sum(old(self).claims_of(addr@)) + amount <= u128::MAX,
        ensures
            final(self).wf(),
            final(self).claims_of(addr@) == old(self).claims_of(addr@).push(
                Claim { amount, release_at },
            ),
            forall|a: Seq<char>|
                a != addr@ ==> #[trigger] final(self).claims_of(a) == old(self).claims_of(a),
    {
        let mut v: Vec<Claim> = match self.store.remove(addr) {
            Some(v) => v,
            None => Vec::new(),
        };
        proof {
            assert(v@ == old(self).claims_of(addr@));
        }
        let ghost v0 = v@;
        v.push(Claim { amount, release_at });
        self.store.set(addr, v);
        proof {
            assert(self.store.spec_get(addr@) == Some(v));
            assert(self.claims_of(addr@) == v0.push(Claim { amount, release_at }));
            assert forall|a: Seq<char>|
                a != addr@ implies #[trigger] self.claims_of(a) == old(self).claims_of(a) by {
                assert(self.store.spec_get(a) == old(self).store.spec_get(a));
            }
            lemma_claims_sum_push(v0, Claim { amount, release_at });
            assert forall|a: Seq<char>| claims_sum(#[trigger] self.claims_of(a)) <= u128::MAX by {
                if a != addr@ {
                    assert(self.claims_of(a) == old(self).claims_of(a));
                    assert(claims_sum(old(self).claims_of(a)) <= u128::MAX);
                }
            }
        }
    }

    /// The claims of `addr`, oldest first.
    pub fn claims_for(&self, addr: &str) -> (r: Vec<Claim>)
        ensures
            r@ == self.claims_of(addr@),
    {
        let mut out: Vec<Claim> = Vec::new();
        match self.store.get(addr) {
            None => out,
            Some(v) => {
                let n = v.len();
                let mut i: usize = 0;
                while i < n
                    invariant
                        i <= n,
                        n == v@.len(),
                        out@ =~= v@.take(i as int),
                    decreases n - i,
                {
                    out.push(v[i]);
                    proof {
                        assert(out@ =~= v@.take(i as int + 1));
                    }
                    i = i + 1;
                }
                proof {
                    assert(v@.take(n as int) =~= v@);
                }
                out
            },
        }
    }

    /// Releases the matured claims of `addr` at `b`, in first-created order,
    /// up to `limit` if one is given.  The last claim the cap lands in is
    /// split: its remainder keeps its release time.  Fails with
    /// `NothingToClaim`, leaving everything unchanged, exactly when that
    /// would pay out nothing.
    #[verifier::loop_isolation(false)]
    pub fn release_claims(&mut self, addr: &str, b: &BlockInfo, limit: Option<u128>) -> (r: Result<
        u128,
        ContractError,
    >)
        requires
            old(self).wf(),
        ensures
            final(self).wf(),
            released_amount(old(self).claims_of(addr@), *b, limit) == 0 ==> r == Err::<
                u128,
                ContractError,
            >(ContractError::NothingToClaim) && *final(self) == *old(self),
            released_amount(old(self).claims_of(addr@), *b, limit) != 0 ==> {
                &&& r == Ok::<u128, ContractError>(
                    released_amount(old(self).claims_of(addr@), *b, limit) as u128,
                )
                &&& final(self).claims_of(addr@) == spec_release(
                    old(self).claims_of(addr@),
                    *b,
                    released_amount(old(self).claims_of(addr@), *b, limit),
                )
                &&& forall|a: Seq<char>|
                    a != addr@ ==> #[trigger] final(self).claims_of(a) == old(self).claims_of(a)
            },
    {
        let ghost s = old(self).claims_of(addr@);
        let v: Vec<Claim> = self.claims_for(addr);
        proof {
            lemma_claims_sum_nonneg(s);
            lemma_matured_sum_bounds(s, *b);
        }
        // first pass: the matured sum
        let n = v.len();
        let mut msum: u128 = 0;
        let mut i: usize = 0;
        while i < n
            invariant
                i <= n,
                msum == matured_sum(v@.take(i as int), *b),
            decreases n - i,
        {
            proof {
                lemma_claims_sum_split(v@, i as int + 1);
                lemma_matured_sum_bounds(v@.take(i as int + 1), *b);
                lemma_claims_sum_nonneg(v@.skip(i as int + 1));
                assert(v@.take(i as int + 1).drop_last() =~= v@.take(i as int));
                lemma_matured_drop_last(v@.take(i as int + 1), *b);
            }
            if v[i].release_at.is_expired(b) {
                msum = msum + v[i].amount;
            }
            i = i + 1;
        }
        proof {
            assert(v@.take(n as int) =~= v@);
        }
        let budget0: u128 = match limit {
            None => msum,
            Some(l) => if l < msum {
                l
            } else {
                msum
            },
        };
        if budget0 == 0 {
            return Err(ContractError::NothingToClaim);
        }
        // second pass: rebuild the list with the budget consumed in order
        let mut out: Vec<Claim> = Vec::new();
        let mut budget: u128 = budget0;
        let mut j: usize = 0;
        while j < n
            invariant
                j <= n,
                budget <= matured_sum(v@.skip(j as int), *b),
                spec_release(v@, *b, budget0 as int) =~= out@ + spec_release(
                    v@.skip(j as int),
                    *b,
                    budget as int,
                ),
            decreases n - j,
        {
            let c = v[j];
            let ghost out0 = out@;
            let ghost rest = v@.skip(j as int + 1);
            proof {
                assert(v@.skip(j as int)[0] == v@[j as int]);
                assert(v@.skip(j as int).skip(1) =~= rest);
                assert(matured_sum(v@.skip(j as int), *b) == (if spec_is_expired(
                    v@[j as int].release_at,
                    *b,
                ) {
                    v@[j as int].amount as int
                } else {
                    0
                }) + matured_sum(rest, *b));
                lemma_matured_sum_bounds(rest, *b);
            }
            if !c.release_at.is_expired(b) {
                out.push(c);
                proof {
                    assert(spec_release(v@.skip(j as int), *b, budget as int) == seq![c]
                        + spec_release(rest, *b, budget as int));
                    assert(out0 + (seq![c] + spec_release(rest, *b, budget as int)) =~= out@
                        + spec_release(rest, *b, budget as int));
                }
            } else if budget >= c.amount {
                budget = budget - c.amount;
            } else if budget > 0 {
                let kept = Claim { amount: c.amount - budget, release_at: c.release_at };
                out.push(kept);
                proof {
                    assert(spec_release(v@.skip(j as int), *b, budget as int) == seq![kept]
                        + spec_release(rest, *b, 0));
                    assert(out0 + (seq![kept] + spec_release(rest, *b, 0)) =~= out@
                        + spec_release(rest, *b, 0));
                }
                budget = 0;
            } else {
                out.push(c);
                proof {
                    assert(spec_release(v@.skip(j as int), *b, 0) == seq![c] + spec_release(
                        rest,
                        *b,
                        0,
                    ));
                    assert(out0 + (seq![c] + spec_release(rest, *b, 0)) =~= out@ + spec_release(
                        rest,
                        *b,
                        0,
                    ));
                }
            }
            j = j + 1;
        }
        proof {
            assert(v@.skip(n as int) =~= Seq::<Claim>::empty());
            assert(budget == 0);
            assert(out@ =~= spec_release(v@, *b, budget0 as int));
        }
        self.store.set(addr, out);
        proof {
            assert(self.store.spec_get(addr@) is Some);
            assert(self.claims_of(addr@) == spec_release(s, *b, budget0 as int));
            assert forall|a: Seq<char>|
                a != addr@ implies #[trigger] self.claims_of(a) == old(self).claims_of(a) by {
                assert(self.store.spec_get(a) == old(self).store.spec_get(a));
            }
            lemma_release_conserves(s, *b, budget0 as int);
            assert forall|a: Seq<char>| claims_sum(#[trigger] self.claims_of(a)) <= u128::MAX by {
                if a != addr@ {
                    assert(self.claims_of(a) == old(self).claims_of(a));
                    assert(claims_sum(old(self).claims_of(a)) <= u128::MAX);
                }
            }
        }
        Ok(budget0)
    }
}

/// Dropping the last claim drops its matured contribution.
proof fn lemma_matured_drop_last(s: Seq<Claim>, b: BlockInfo)
    requires
        s.len() > 0,
    ensures
        matured_sum(s, b) == matured_sum(s.drop_last(), b) + (if spec_is_expired(
            s.last().release_at,
            b,
        ) {
            s.last().amount as int
        } else {
            0
        }),
    decreases s.len(),
{
    if s.len() == 1 {
        assert(s.drop_last() =~= Seq::<Claim>::empty());
        assert(s.skip(1) =~= Seq::<Claim>::empty());
    } else {
        lemma_matured_drop_last(s.skip(1), b);
        assert(s.skip(1).drop_last() =~= s.drop_last().skip(1));
        assert(s.drop_last()[0] == s[0]);
        assert(s.skip(1).last() == s.last());
    }
}

} // verus!
