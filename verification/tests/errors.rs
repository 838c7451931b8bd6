use bitmask_core::amount::AmountError;
use bitmask_core::consignment::InvalidTransition;
use bitmask_core::errors::{CoreError, ErrorClass};
use bitmask_core::psbt::{ComposeError, MergeError};
use bitmask_core::signing::{NetworkError, RelayRefusal, SigningError};
use bitmask_core::swap::SwapError;
use bitmask_core::watcher::{InvoiceError, LedgerError};

#[test]
fn errors_fall_into_four_kinds() {
    let validation = [
        CoreError::Amount(AmountError::Malformed),
        CoreError::Amount(AmountError::PrecisionMismatch),
        CoreError::Amount(AmountError::Overflow),
        CoreError::Amount(AmountError::Underflow),
        CoreError::Ledger(LedgerError::UnknownContract),
        CoreError::Invoice(InvoiceError::UnknownContract),
        CoreError::Invoice(InvoiceError::InvalidAmount),
        CoreError::Compose(ComposeError::InvalidSeal),
        CoreError::Compose(ComposeError::ValueOutOfRange),
        CoreError::Merge(MergeError::ContractMismatch),
        CoreError::Merge(MergeError::TooManyOutputs),
        CoreError::Transition(InvalidTransition { consumed: 1, assigned: 2 }),
        CoreError::Swap(SwapError::OfferNotFound),
        CoreError::Swap(SwapError::BidNotFound),
        CoreError::Swap(SwapError::BundleNotFound),
        CoreError::Swap(SwapError::WrongStrategy),
        CoreError::Swap(SwapError::UnknownContract),
        CoreError::Swap(SwapError::PrecisionMismatch),
        CoreError::Swap(SwapError::InvalidTransition),
        CoreError::Swap(SwapError::InvalidSeal),
        CoreError::Swap(SwapError::AmountMismatch),
        CoreError::Swap(SwapError::Merge(MergeError::ContractMismatch)),
    ];
    let conflict = [
        CoreError::Ledger(LedgerError::ContractExists),
        CoreError::Compose(ComposeError::InsufficientFunds),
        CoreError::Merge(MergeError::Conflict),
        CoreError::Swap(SwapError::InsufficientAllocation),
        CoreError::Swap(SwapError::OfferExpired),
        CoreError::Swap(SwapError::AmountExceedsOffer),
        CoreError::Swap(SwapError::AmbiguousBid),
        CoreError::Swap(SwapError::Merge(MergeError::Conflict)),
    ];
    let signing = [
        CoreError::Signing(SigningError::IncompleteSigning { input: 0 }),
        CoreError::Swap(SwapError::SellerNotSigned),
    ];
    let network = [
        CoreError::Network(NetworkError::BackendTimeout),
        CoreError::Network(NetworkError::BroadcastRejected(RelayRefusal::FeeTooLow)),
        CoreError::Network(NetworkError::BroadcastRejected(RelayRefusal::MempoolConflict)),
        CoreError::Network(NetworkError::BroadcastRejected(RelayRefusal::Other)),
    ];
    for e in validation {
        assert_eq!(e.class(), ErrorClass::Validation, "{e:?}");
        assert!(!e.is_retryable());
    }
    for e in conflict {
        assert_eq!(e.class(), ErrorClass::StateConflict, "{e:?}");
        assert!(!e.is_retryable());
    }
    for e in signing {
        assert_eq!(e.class(), ErrorClass::Signing, "{e:?}");
        assert!(!e.is_retryable());
    }
    for e in network {
        assert_eq!(e.class(), ErrorClass::Network, "{e:?}");
        assert!(e.is_retryable());
    }
}
