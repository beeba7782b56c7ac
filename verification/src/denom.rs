//! The denomination of the bonded token: either a native chain token named by
//! its identifier, or an external token contract named by its address.

use vstd::prelude::*;

verus! {

/// A tagged union over the two kinds of token a deployment can bond.
/// Immutable once chosen at configuration time.
#[derive(Debug)]
pub enum Denom {
    /// A native chain token, named by its denomination string.
    Native(String),
    /// An external token contract, named by its address.
    Cw20(String),
}

/// The mathematical value of a `Denom`: which variant it is, and the
/// character sequence that names the token.
pub enum DenomView {
    Native(Seq<char>),
    Cw20(Seq<char>),
}

impl View for Denom {
    type V = DenomView;

    open spec fn view(&self) -> DenomView {
        match self {
            Denom::Native(s) => DenomView::Native(s@),
            Denom::Cw20(s) => DenomView::Cw20(s@),
        }
    }
}

impl Denom {
    /// A copy naming the same token.
    pub fn duplicate(&self) -> (r: Denom)
        ensures
            r@ == self@,
    {
        match self {
            Denom::Native(s) => Denom::Native(s.clone()),
            Denom::Cw20(s) => Denom::Cw20(s.clone()),
        }
    }

    /// Whether two denominations name the same token.
    pub fn same(&self, other: &Denom) -> (r: bool)
        ensures
            r == (self@ == other@),
    {
        match (self, other) {
            (Denom::Native(a), Denom::Native(b)) => a.eq(b),
            (Denom::Cw20(a), Denom::Cw20(b)) => a.eq(b),
            _ => false,
        }
    }
}

} // verus!
