//! The token contract's creation message and its validation: name, symbol
//! and decimals are checked before anything is written, so malformed input
//! never produces state.

use vstd::prelude::*;
use vstd::string::StringSliceAdditionalSpecFns;

verus! {

/// The error type of the chain's standard library, carried through opaquely.
#[verifier::external_type_specification]
#[verifier::external_body]
pub struct ExStdError(cosmwasm_std::StdError);

/// Relies on cosmwasm_std::StdError::generic_err: builds the generic error
/// variant carrying the given message.
#[verifier::external_body]
fn generic_err(msg: &str) -> (r: cosmwasm_std::StdError) {
    cosmwasm_std::StdError::generic_err(msg)
}

/// An initial balance: an address and the amount it starts with.
pub struct Cw20Coin {
    pub address: String,
    pub amount: u128,
}

/// Who may mint, and the cap minting may never pass, if any.
pub struct MinterResponse {
    pub minter: String,
    pub cap: Option<u128>,
}

/// An embedded logo's image data.
pub enum EmbeddedLogo {
    Svg(Vec<u8>),
    Png(Vec<u8>),
}

/// A logo: a link to one, or the image itself.
pub enum Logo {
    Url(String),
    Embedded(EmbeddedLogo),
}

/// Project metadata shown by clients.
pub struct InstantiateMarketingInfo {
    pub project: Option<String>,
    pub description: Option<String>,
    pub marketing: Option<String>,
    pub logo: Option<Logo>,
}

/// What creates a token contract: its metadata, the initial balances, and
/// optionally a minter and marketing info.
pub struct InstantiateMsg {
    pub name: String,
    pub symbol: String,
    pub decimals: u8,
    pub initial_balances: Vec<Cw20Coin>,
    pub mint: Option<MinterResponse>,
    pub marketing: Option<InstantiateMarketingInfo>,
}

impl Default for InstantiateMsg {
    /// An empty message: useful as a base to fill fields in.
    fn default() -> (r: InstantiateMsg)
        ensures
            r.name@ == Seq::<char>::empty(),
            r.symbol@ == Seq::<char>::empty(),
            r.decimals == 0,
            r.initial_balances@.len() == 0,
            r.mint is None,
            r.marketing is None,
    {
        InstantiateMsg {
            name: String::new(),
            symbol: String::new(),
            decimals: 0,
            initial_balances: Vec::new(),
            mint: None,
            marketing: None,
        }
    }
}

/// Whether a name is acceptable: 3 to 50 bytes of UTF-8.
pub open spec fn valid_name(name: Seq<char>) -> bool {
    3 <= vstd::utf8::encode_utf8(name).len() <= 50
}

/// Whether one byte may appear in a ticker symbol: `-`, `A` to `Z`, or `a`
/// to `z`.
pub open spec fn valid_symbol_byte(b: u8) -> bool {
    b == 45 || (65 <= b <= 90) || (97 <= b <= 122)
}

/// Whether a ticker symbol is acceptable: 3 to 12 bytes, each a letter or a
/// dash.
pub open spec fn valid_symbol(symbol: Seq<char>) -> bool {
    let b = vstd::utf8::encode_utf8(symbol);
    &&& 3 <= b.len() <= 12
    &&& forall|i: int| 0 <= i < b.len() ==> valid_symbol_byte(#[trigger] b[i])
}

impl InstantiateMsg {
    /// The remaining minting cap, where a minter with one is set.
    pub fn get_cap(&self) -> (r: Option<u128>)
        ensures
            r == match self.mint {
                Some(m) => m.cap,
                None => None,
            },
    {
        match &self.mint {
            Some(m) => m.cap,
            None => None,
        }
    }

    /// Checks name, symbol and decimals; an error names the first field that
    /// is out of shape.  Nothing else is validated here.
    pub fn validate(&self) -> (r: Result<(), cosmwasm_std::StdError>)
        ensures
            r is Ok <==> valid_name(self.name@) && valid_symbol(self.symbol@) && self.decimals
                <= 18,
    {
        if !self.has_valid_name() {
            return Err(generic_err("Name is not in the expected format (3-50 UTF-8 bytes)"));
        }
        if !self.has_valid_symbol() {
            return Err(generic_err("Ticker symbol is not in expected format [a-zA-Z\\-]{3,12}"));
        }
        if self.decimals > 18 {
            return Err(generic_err("Decimals must not exceed 18"));
        }
        Ok(())
    }

    /// Whether the name is 3 to 50 bytes long.
    pub fn has_valid_name(&self) -> (r: bool)
        ensures
            r == valid_name(self.name@),
    {
        let bytes = self.name.as_str().as_bytes();
        let n = bytes.len();
        n >= 3 && n <= 50
    }

    /// Whether the symbol is 3 to 12 bytes, each a letter or a dash.
    pub fn has_valid_symbol(&self) -> (r: bool)
        ensures
            r == valid_symbol(self.symbol@),
    {
        let bytes = self.symbol.as_str().as_bytes();
        let n = bytes.len();
        if n < 3 || n > 12 {
            return false;
        }
        let mut i: usize = 0;
        while i < n
            invariant
                i <= n,
                n == bytes@.len(),
                bytes@ == vstd::utf8::encode_utf8(self.symbol@),
                forall|j: int| 0 <= j < i ==> valid_symbol_byte(#[trigger] bytes@[j]),
            decreases n - i,
        {
            let byte = bytes[i];
            if byte != 45 && (byte < 65 || byte > 90) && (byte < 97 || byte > 122) {
                return false;
            }
            i = i + 1;
        }
        true
    }
}

/// The read-only questions a token contract answers.  Several need optional
/// extensions of the contract.
pub enum QueryMsg {
    /// The current balance of the given address, 0 if unset.
    Balance { address: String },
    /// Metadata on the contract: name, decimals, supply.
    TokenInfo {},
    /// Who can mint, and the hard cap on total supply, if any.
    Minter {},
    /// How much `spender` may draw from `owner`, 0 if unset.
    Allowance { owner: String, spender: String },
    /// All allowances this owner has approved, paginated.
    AllAllowances { owner: String, start_after: Option<String>, limit: Option<u32> },
    /// All allowances granted to this spender, paginated.
    AllSpenderAllowances { spender: String, start_after: Option<String>, limit: Option<u32> },
    /// All accounts that hold balances, paginated.
    AllAccounts { start_after: Option<String>, limit: Option<u32> },
    /// The marketing metadata.
    MarketingInfo {},
    /// The embedded logo data, where one is stored.
    DownloadLogo {},
}

/// A migration carries nothing.
pub struct MigrateMsg {}

} // verus!
