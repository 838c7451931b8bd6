//! The errors of the library under one roof, and the four kinds they fall into.
//!
//! The kind tells a caller what to do: a validation error is final, a state
//! conflict is surfaced and not tried again by itself, a signing error needs
//! other keys, and a network error may be tried again.

use vstd::prelude::*;
use crate::amount::AmountError;
use crate::consignment::InvalidTransition;
use crate::psbt::{ComposeError, MergeError};
use crate::signing::{NetworkError, SigningError};
use crate::swap::SwapError;
use crate::watcher::{InvoiceError, LedgerError};

verus! {

/// The four kinds of error.
#[derive(Clone, Copy, Debug, PartialEq, Eq, Structural)]
pub enum ErrorClass {
    /// What was asked makes no sense as it stands: rejected at once, never tried again.
    Validation,
    /// What was asked clashes with the state of things: failed closed.
    StateConflict,
    /// Signatures are missing: the caller must supply keys.
    Signing,
    /// The network failed: the caller may try again.
    Network,
}

/// Any error of the library.
#[derive(Clone, Copy, Debug, PartialEq, Eq, Structural)]
pub enum CoreError {
    Amount(AmountError),
    Ledger(LedgerError),
    Invoice(InvoiceError),
    Compose(ComposeError),
    Merge(MergeError),
    Transition(InvalidTransition),
    Signing(SigningError),
    Network(NetworkError),
    Swap(SwapError),
}

/// The kind of a merge error.
pub open spec fn merge_class(e: MergeError) -> ErrorClass {
    match e {
        MergeError::Conflict => ErrorClass::StateConflict,
        MergeError::ContractMismatch => ErrorClass::Validation,
        MergeError::TooManyOutputs => ErrorClass::Validation,
    }
}

/// The kind of a swap error.
pub open spec fn swap_class(e: SwapError) -> ErrorClass {
    match e {
        SwapError::InsufficientAllocation => ErrorClass::StateConflict,
        SwapError::OfferExpired => ErrorClass::StateConflict,
        SwapError::AmountExceedsOffer => ErrorClass::StateConflict,
        SwapError::AmbiguousBid => ErrorClass::StateConflict,
        SwapError::SellerNotSigned => ErrorClass::Signing,
        SwapError::Merge(m) => merge_class(m),
        _ => ErrorClass::Validation,
    }
}

/// The kind of an error.
pub open spec fn class_of(e: CoreError) -> ErrorClass {
    match e {
        CoreError::Amount(_) => ErrorClass::Validation,
        CoreError::Ledger(LedgerError::UnknownContract) => ErrorClass::Validation,
        CoreError::Ledger(LedgerError::ContractExists) => ErrorClass::StateConflict,
        CoreError::Invoice(_) => ErrorClass::Validation,
        CoreError::Compose(ComposeError::InsufficientFunds) => ErrorClass::StateConflict,
        CoreError::Compose(_) => ErrorClass::Validation,
        CoreError::Merge(m) => merge_class(m),
        CoreError::Transition(_) => ErrorClass::Validation,
        CoreError::Signing(_) => ErrorClass::Signing,
        CoreError::Network(_) => ErrorClass::Network,
        CoreError::Swap(s) => swap_class(s),
    }
}

fn class_of_merge(e: MergeError) -> (c: ErrorClass)
    ensures
        c == merge_class(e),
{
    match e {
        MergeError::Conflict => ErrorClass::StateConflict,
        MergeError::ContractMismatch => ErrorClass::Validation,
        MergeError::TooManyOutputs => ErrorClass::Validation,
    }
}

fn class_of_swap(e: SwapError) -> (c: ErrorClass)
    ensures
        c == swap_class(e),
{
    match e {
        SwapError::InsufficientAllocation => ErrorClass::StateConflict,
        SwapError::OfferExpired => ErrorClass::StateConflict,
        SwapError::AmountExceedsOffer => ErrorClass::StateConflict,
        SwapError::AmbiguousBid => ErrorClass::StateConflict,
        SwapError::SellerNotSigned => ErrorClass::Signing,
        SwapError::Merge(m) => class_of_merge(m),
        _ => ErrorClass::Validation,
    }
}

impl CoreError {
    /// The kind of the error.
    pub fn class(&self) -> (c: ErrorClass)
        ensures
            c == class_of(*self),
    {
        match *self {
            CoreError::Amount(_) => ErrorClass::Validation,
            CoreError::Ledger(LedgerError::UnknownContract) => ErrorClass::Validation,
            CoreError::Ledger(LedgerError::ContractExists) => ErrorClass::StateConflict,
            CoreError::Invoice(_) => ErrorClass::Validation,
            CoreError::Compose(ComposeError::InsufficientFunds) => ErrorClass::StateConflict,
            CoreError::Compose(_) => ErrorClass::Validation,
            CoreError::Merge(m) => class_of_merge(m),
            CoreError::Transition(_) => ErrorClass::Validation,
            CoreError::Signing(_) => ErrorClass::Signing,
            CoreError::Network(_) => ErrorClass::Network,
            CoreError::Swap(s) => class_of_swap(s),
        }
    }

    /// Whether the caller may try again as it is: only after a failure of the network.
    pub fn is_retryable(&self) -> (r: bool)
        ensures
            r == (class_of(*self) is Network),
    {
        match self.class() {
            ErrorClass::Network => true,
            _ => false,
        }
    }
}

} // verus!
