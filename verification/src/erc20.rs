//! Token metadata and approval events, as plain values.
//!
//! The caller's event-query layer produces approval events and the remote
//! metadata provider produces a token's symbol and decimal scale; both
//! arrive here converted to the plain types below, so every rule about
//! them can be stated and proved.

use crate::amount::{pow10, Amount};
use vstd::prelude::*;

verus! {

/// A 160-bit on-chain address: the key every resolution is made under.
#[derive(Clone, Copy, PartialEq, Eq, Hash, Debug, Structural)]
pub struct Address {
    pub hi: u32,
    pub lo: u128,
}

/// A 256-bit transaction hash, carried through for display.
#[derive(Clone, Copy, PartialEq, Eq, Hash, Debug, Structural)]
pub struct TxHash {
    pub hi: u128,
    pub lo: u128,
}

/// The part of an event's log metadata that resolution reads: the token
/// contract the event came from, and the transaction it sits in.
#[derive(Clone, Copy, PartialEq, Eq, Debug, Structural)]
pub struct EventMeta {
    pub address: Address,
    pub transaction_hash: TxHash,
}

/// Resolved metadata of one token: its address, symbol and decimal scale.
#[derive(Debug, PartialEq, Eq)]
pub struct CachedERC20 {
    pub address: Address,
    pub symbol: String,
    pub decimals: u8,
}

impl Clone for CachedERC20 {
    /// A clone is equal to the original: every holder of a resolved
    /// token sees the same metadata.
    fn clone(&self) -> (r: Self)
        ensures
            r == *self,
    {
        CachedERC20 { address: self.address, symbol: self.symbol.clone(), decimals: self.decimals }
    }
}

impl CachedERC20 {
    pub fn new(address: Address, symbol: String, decimals: u8) -> (r: Self)
        ensures
            r == (CachedERC20 { address, symbol, decimals }),
    {
        CachedERC20 { address, symbol, decimals }
    }

    pub fn symbol(&self) -> (r: &str)
        ensures
            r@ == self.symbol@,
    {
        self.symbol.as_str()
    }

    pub fn address(&self) -> (r: Address)
        ensures
            r == self.address,
    {
        self.address
    }

    pub fn decimals(&self) -> (r: u8)
        ensures
            r == self.decimals,
    {
        self.decimals
    }

    /// Split an amount at this token's decimal scale:
    /// an integer part and a fractional part below `pow10(decimals)`.
    pub fn as_decimals(&self, x: &Amount) -> (r: (Amount, Amount))
        requires
            x.wf(),
        ensures
            r.0.wf(),
            r.1.wf(),
            r.0@ == x@ / pow10(self.decimals as nat),
            r.1@ == x@ % pow10(self.decimals as nat),
    {
        x.split(self.decimals)
    }
}

/// One approval event: who granted whom how much.
#[derive(Debug, PartialEq, Eq)]
pub struct Approval {
    pub owner: Address,
    pub spender: Address,
    pub value: Amount,
}

impl Clone for Approval {
    /// A clone names the same parties and carries the same amount.
    fn clone(&self) -> (r: Self)
        ensures
            r.owner == self.owner,
            r.spender == self.spender,
            r.value.digits@ == self.value.digits@,
            r.value@ == self.value@,
    {
        Approval { owner: self.owner, spender: self.spender, value: self.value.clone() }
    }
}

/// An approval event as the caller's query layer hands it in: the
/// decoded approval, and the log metadata naming the token it came from.
#[derive(Debug, PartialEq, Eq)]
pub struct ApprovalEvent {
    pub approval: Approval,
    pub meta: EventMeta,
}

/// An approval event joined with its token's resolved metadata.
#[derive(Debug, PartialEq, Eq)]
pub struct TokenApproval {
    pub token: CachedERC20,
    pub approval: Approval,
    pub meta: EventMeta,
}

impl TokenApproval {
    pub fn new(token: CachedERC20, approval: Approval, meta: EventMeta) -> (r: Self)
        ensures
            r == (TokenApproval { token, approval, meta }),
    {
        TokenApproval { token, approval, meta }
    }
}

/// A failed remote metadata lookup; the text says which call failed and how.
#[derive(Debug, PartialEq, Eq)]
pub struct FetchError {
    pub message: String,
}

impl Clone for FetchError {
    /// A clone is the same error.
    fn clone(&self) -> (r: Self)
        ensures
            r == *self,
    {
        FetchError { message: self.message.clone() }
    }
}

} // verus!
