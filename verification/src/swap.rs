//! The swap protocol as a state machine: offers, bids, auction bundles, and
//! the transitions between their states.
//!
//! Everything here is definition and proof. The executable engine lives in
//! `engine` and is proved to follow these definitions.

use vstd::prelude::*;
use crate::amount::ContractAmount;
use crate::consignment::{
    assigned_total, balanced, blinded_total, spent_total, Assignment, SealTarget,
};
use crate::ids::Hash256;
use crate::ledger::{
    already_spent, contract_of, distinct, held_at, holds_at, is_accepted, knows, open_seal,
    AnchorStatus, LedgerState,
};
use crate::psbt::{merge_spec, MergeError, PsbtData};
use crate::seal::Seal;
use crate::signing::{fully_signed, signed_psbt};

verus! {

/// How a swap is carried out, as a request names it.
#[derive(Clone, Copy, Debug, PartialEq, Eq, Structural)]
pub enum SwapStrategy {
    /// The seller signs first; the buyer completes the transaction.
    P2P,
    /// The buyer signs first; the seller completes the transaction.
    HotSwap,
    /// Several offers are closed together.
    Auction,
}

/// The strategy of an offer, with what that strategy alone needs.
#[derive(Clone, Copy, Debug, PartialEq, Eq, Structural)]
pub enum Terms {
    /// Whether the seller's fragment carries all its signatures.
    P2P { seller_signed: bool },
    HotSwap,
    /// The bundle that the offer belongs to.
    Auction { bundle: u64 },
}

/// Where an offer stands.
#[derive(Clone, Copy, Debug, PartialEq, Eq, Structural)]
pub enum OfferState {
    Open,
    SellerSigned,
    Matched,
    Finalizing,
    Settled,
    Expired,
    Cancelled,
}

/// Where a bid stands.
#[derive(Clone, Copy, Debug, PartialEq, Eq, Structural)]
pub enum BidState {
    Created,
    Finalizing,
    Settled,
    Rejected,
}

/// Where an auction bundle stands.
#[derive(Clone, Copy, Debug, PartialEq, Eq, Structural)]
pub enum BundleState {
    Open,
    Closed,
    Finalized,
}

/// The end of the derivation path on which change returns.
#[derive(Clone, Copy, Debug, PartialEq, Eq, Structural)]
pub struct Terminal {
    pub branch: u32,
    pub index: u32,
}

/// An offer to sell an amount of a contract for bitcoin.
#[derive(Clone, Copy, Debug, PartialEq, Eq, Structural)]
pub struct Offer {
    pub id: u64,
    pub seller: Hash256,
    pub contract: Hash256,
    pub amount: ContractAmount,
    /// What no bid has asked for yet, in base units.
    pub remaining: u64,
    /// The price in satoshi.
    pub price: u64,
    pub descriptor: u64,
    pub change_terminal: Terminal,
    /// The output of the merged transaction on which what is not sold returns to the seller.
    pub change_vout: u32,
    pub terms: Terms,
    pub expire_at: u64,
    pub state: OfferState,
    /// The transaction that anchors the swap, once there is one.
    pub anchor: Option<Hash256>,
}

/// A bid on an offer.
#[derive(Clone, Copy, Debug, PartialEq, Eq, Structural)]
pub struct Bid {
    pub id: u64,
    pub offer: u64,
    pub buyer: Hash256,
    /// The amount asked for, in base units of the offer's precision.
    pub amount: u64,
    /// The blinded seal on which the buyer receives.
    pub seal: Seal,
    pub descriptor: u64,
    pub change_terminal: Terminal,
    /// The fee that the buyer pays, in satoshi.
    pub fee: u64,
    pub state: BidState,
}

/// A group of offers that are closed together.
#[derive(Clone, Copy, Debug, PartialEq, Eq, Structural)]
pub struct Bundle {
    pub id: u64,
    pub seller: Hash256,
    pub state: BundleState,
}

/// What a seller asks the engine to offer.
#[derive(Clone, Copy, Debug, PartialEq, Eq, Structural)]
pub struct OfferRequest {
    pub contract: Hash256,
    pub amount: ContractAmount,
    pub price: u64,
    pub descriptor: u64,
    pub change_terminal: Terminal,
    pub change_vout: u32,
    pub strategy: SwapStrategy,
    pub expire_at: u64,
}

/// What a buyer asks the engine to bid.
#[derive(Clone, Copy, Debug, PartialEq, Eq, Structural)]
pub struct BidRequest {
    pub offer_id: u64,
    pub amount: ContractAmount,
    pub seal: Seal,
    pub descriptor: u64,
    pub change_terminal: Terminal,
    pub fee: u64,
}

/// Why the engine turned an operation down.
#[derive(Clone, Copy, Debug, PartialEq, Eq, Structural)]
pub enum SwapError {
    /// No such offer, or none that is open to the caller.
    OfferNotFound,
    /// No such bid on this offer, or none that still stands.
    BidNotFound,
    /// No such bundle of this seller, or it is closed already.
    BundleNotFound,
    /// The operation is not for offers of this strategy.
    WrongStrategy,
    /// The seller has not registered the contract.
    UnknownContract,
    /// An amount is not written in the contract's precision.
    PrecisionMismatch,
    /// The seller holds less than the offer asks to sell.
    InsufficientAllocation,
    /// The offer's time has passed.
    OfferExpired,
    /// The bid asks for more than the offer has left.
    AmountExceedsOffer,
    /// More than one bid stands on the offer.
    AmbiguousBid,
    /// The seller's fragment of a P2P offer lacks a signature.
    SellerNotSigned,
    /// The two fragments do not merge.
    Merge(MergeError),
    /// The fragments consume less than they assign and the bid asks for, or
    /// what is left over is no amount.
    InvalidTransition,
    /// What is not sold has no output to return on.
    InvalidSeal,
    /// A fragment assigns to a blinded seal of its own, so that more than the
    /// bid's amount would leave the seller.
    AmountMismatch,
}

/// Everything the engine holds. An offer's id is its position among the
/// offers, a bid's id its position among the bids, a bundle's id its position
/// among the bundles.
pub struct EngineState {
    pub offers: Seq<Offer>,
    /// The seller's fragment of each offer.
    pub offer_psbts: Seq<PsbtData>,
    pub bids: Seq<Bid>,
    /// The buyer's fragment of each bid.
    pub bid_psbts: Seq<PsbtData>,
    pub bundles: Seq<Bundle>,
    /// How deep the anchoring transaction must be for an offer to settle.
    pub min_confirmations: u32,
}

/// What a swap transfer hands back: the merged transaction, and where it came from.
pub struct SwapData {
    pub offer_id: u64,
    pub bid_id: u64,
    pub final_psbt: PsbtData,
}

/// Whether a swap of the bundle is under way: whether one of its offers is finalizing.
pub open spec fn in_flight(offers: Seq<Offer>, bundle: u64) -> bool {
    exists|i: int|
        0 <= i < offers.len() && (#[trigger] offers[i]).terms == (Terms::Auction { bundle })
            && offers[i].state is Finalizing
}

/// Whether an offer in this state takes bids.
pub open spec fn takes_bids(state: OfferState) -> bool {
    state is Open || state is SellerSigned || state is Matched
}

/// The number of bids on an offer that still stand.
pub open spec fn active_bids(bids: Seq<Bid>, offer: u64) -> nat
    decreases bids.len(),
{
    if bids.len() == 0 {
        0
    } else {
        active_bids(bids.drop_last(), offer) + if bids.last().offer == offer
            && bids.last().state is Created {
            1nat
        } else {
            0nat
        }
    }
}

/// The last bid placed on an offer that still stands.
pub open spec fn active_bid(bids: Seq<Bid>, offer: u64) -> Option<int>
    decreases bids.len(),
{
    if bids.len() == 0 {
        None
    } else if bids.last().offer == offer && bids.last().state is Created {
        Some(bids.len() - 1)
    } else {
        active_bid(bids.drop_last(), offer)
    }
}

/// Whether a seller may offer what the request asks.
pub open spec fn offer_verdict(ledger: LedgerState, request: OfferRequest, auction: bool) -> Result<
    (),
    SwapError,
> {
    if !knows(ledger.contracts, request.contract) {
        Err(SwapError::UnknownContract)
    } else if request.amount.precision != contract_of(ledger.contracts, request.contract).precision {
        Err(SwapError::PrecisionMismatch)
    } else if ledger.balance(request.contract) < request.amount.value {
        Err(SwapError::InsufficientAllocation)
    } else if (request.strategy is Auction) != auction {
        Err(SwapError::WrongStrategy)
    } else {
        Ok(())
    }
}

/// Whether a seller may offer all that the requests ask; the first request
/// that may not be offered gives the error.
pub open spec fn auction_verdict(ledger: LedgerState, requests: Seq<OfferRequest>) -> Result<
    (),
    SwapError,
>
    decreases requests.len(),
{
    if requests.len() == 0 {
        Ok(())
    } else {
        match auction_verdict(ledger, requests.drop_last()) {
            Err(e) => Err(e),
            Ok(()) => offer_verdict(ledger, requests.last(), true),
        }
    }
}

/// The seller's fragment as the engine keeps it: signed at once for a P2P
/// offer, as it came for the others.
pub open spec fn kept_fragment(request: OfferRequest, psbt: PsbtData, keys: Seq<u64>) -> PsbtData {
    if request.strategy is P2P {
        signed_psbt(psbt, keys)
    } else {
        psbt
    }
}

/// What the swap leaves over for the seller: what the fragments consume, less
/// what they assign themselves and what the bid asks for.
pub open spec fn swap_rest(merged: PsbtData, bid: Bid) -> int {
    spent_total(merged.spends) - assigned_total(merged.assignments) - bid.amount
}

/// The assignments of the swap's transition: those of the fragments, then the
/// bid's amount to the buyer's seal, then what is left over to the seller on
/// the output that the offer names.
///
/// There is no such transition if the fragments consume too little, if what
/// is left over does not fit in 64 bits, if there is something left over and
/// no such output, or if a fragment assigns to a blinded seal of its own.
pub open spec fn swap_assignments(merged: PsbtData, bid: Bid, change_vout: u32) -> Result<
    Seq<Assignment>,
    SwapError,
> {
    let rest = swap_rest(merged, bid);
    let to_buyer = Assignment { target: SealTarget::Blinded(bid.seal), amount: bid.amount };
    if rest < 0 || rest > u64::MAX {
        Err(SwapError::InvalidTransition)
    } else if rest > 0 && change_vout >= merged.outputs.len() {
        Err(SwapError::InvalidSeal)
    } else if blinded_total(merged.assignments) != 0 {
        Err(SwapError::AmountMismatch)
    } else if rest > 0 {
        Ok(
            merged.assignments.push(to_buyer).push(
                Assignment { target: SealTarget::Output(change_vout), amount: rest as u64 },
            ),
        )
    } else {
        Ok(merged.assignments.push(to_buyer))
    }
}

/// The transition of a swap balances, and hands the buyer the bid's amount,
/// no more and no less.
pub proof fn lemma_swap_assignments(merged: PsbtData, bid: Bid, change_vout: u32)
    ensures
        swap_assignments(merged, bid, change_vout) matches Ok(list) ==> balanced(merged.spends, list)
            && blinded_total(list) == bid.amount,
{
    if swap_assignments(merged, bid, change_vout) is Ok {
        let to_buyer = Assignment { target: SealTarget::Blinded(bid.seal), amount: bid.amount };
        let first = merged.assignments.push(to_buyer);
        assert(first.drop_last() =~= merged.assignments);
        assert(first.last() == to_buyer);
        assert(assigned_total(first) == assigned_total(merged.assignments) + bid.amount);
        assert(blinded_total(first) == bid.amount);
        let rest = swap_rest(merged, bid);
        if rest > 0 {
            let back = Assignment { target: SealTarget::Output(change_vout), amount: rest as u64 };
            let both = first.push(back);
            assert(both.drop_last() =~= first);
            assert(both.last() == back);
            assert(assigned_total(both) == assigned_total(first) + rest);
            assert(blinded_total(both) == blinded_total(first));
        }
    }
}

impl EngineState {
    /// An engine that holds nothing.
    pub open spec fn empty(min_confirmations: u32) -> EngineState {
        EngineState {
            offers: Seq::empty(),
            offer_psbts: Seq::empty(),
            bids: Seq::empty(),
            bid_psbts: Seq::empty(),
            bundles: Seq::empty(),
            min_confirmations,
        }
    }

    /// The invariant of the engine.
    pub open spec fn wf(self) -> bool {
        &&& self.offers.len() == self.offer_psbts.len()
        &&& self.bids.len() == self.bid_psbts.len()
        &&& forall|i: int| 0 <= i < self.offers.len() ==> (#[trigger] self.offers[i]).id == i
        &&& forall|i: int|
            0 <= i < self.offers.len() ==> (#[trigger] self.offers[i]).remaining
                <= self.offers[i].amount.value
        &&& forall|j: int|
            0 <= j < self.bids.len() ==> (#[trigger] self.bids[j]).id == j && self.bids[j].offer
                < self.offers.len()
        &&& forall|b: int| 0 <= b < self.bundles.len() ==> (#[trigger] self.bundles[b]).id == b
    }

    /// The offer that a request creates.
    pub open spec fn new_offer(
        self,
        seller: Hash256,
        request: OfferRequest,
        psbt: PsbtData,
        keys: Seq<u64>,
        bundle: u64,
    ) -> Offer {
        let signed = fully_signed(signed_psbt(psbt, keys).inputs);
        Offer {
            id: self.offers.len() as u64,
            seller,
            contract: request.contract,
            amount: request.amount,
            remaining: request.amount.value,
            price: request.price,
            descriptor: request.descriptor,
            change_terminal: request.change_terminal,
            change_vout: request.change_vout,
            terms: match request.strategy {
                SwapStrategy::P2P => Terms::P2P { seller_signed: signed },
                SwapStrategy::HotSwap => Terms::HotSwap,
                SwapStrategy::Auction => Terms::Auction { bundle },
            },
            expire_at: request.expire_at,
            state: if request.strategy is P2P && signed {
                OfferState::SellerSigned
            } else {
                OfferState::Open
            },
            anchor: None,
        }
    }

    /// The engine after an offer was created.
    pub open spec fn offered(
        self,
        seller: Hash256,
        request: OfferRequest,
        psbt: PsbtData,
        keys: Seq<u64>,
        bundle: u64,
    ) -> EngineState {
        EngineState {
            offers: self.offers.push(self.new_offer(seller, request, psbt, keys, bundle)),
            offer_psbts: self.offer_psbts.push(kept_fragment(request, psbt, keys)),
            ..self
        }
    }

    /// The engine after the offers of an auction were created, in their order.
    pub open spec fn auctioned(
        self,
        seller: Hash256,
        requests: Seq<OfferRequest>,
        psbts: Seq<PsbtData>,
        bundle: u64,
    ) -> EngineState
        decreases requests.len(),
    {
        if requests.len() == 0 {
            self
        } else {
            self.auctioned(seller, requests.drop_last(), psbts.drop_last(), bundle).offered(
                seller,
                requests.last(),
                psbts.last(),
                Seq::empty(),
                bundle,
            )
        }
    }

    /// The engine with a new bundle of `seller`.
    pub open spec fn bundled(self, seller: Hash256) -> EngineState {
        EngineState {
            bundles: self.bundles.push(
                Bundle { id: self.bundles.len() as u64, seller, state: BundleState::Open },
            ),
            ..self
        }
    }

    /// The engine with the state of one offer set.
    pub open spec fn with_offer_state(self, offer: int, state: OfferState) -> EngineState {
        EngineState {
            offers: self.offers.update(offer, Offer { state, ..self.offers[offer] }),
            ..self
        }
    }

    /// Whether the offer's time has passed while it still took bids.
    pub open spec fn lapses(self, offer: int, now: u64) -> bool {
        takes_bids(self.offers[offer].state) && now >= self.offers[offer].expire_at
    }

    /// Lazy expiry: an offer whose time has passed while it still took bids is
    /// marked as expired by whatever operation finds it so.
    pub open spec fn swept(self, offer: int, now: u64) -> EngineState {
        if 0 <= offer < self.offers.len() && self.lapses(offer, now) {
            self.with_offer_state(offer, OfferState::Expired)
        } else {
            self
        }
    }

    /// Whether a bid may be placed.
    pub open spec fn bid_verdict(self, request: BidRequest, auction: bool, now: u64) -> Result<
        (),
        SwapError,
    > {
        let i = request.offer_id as int;
        if i >= self.offers.len() {
            Err(SwapError::OfferNotFound)
        } else if self.offers[i].state is Expired || now >= self.offers[i].expire_at {
            Err(SwapError::OfferExpired)
        } else if !takes_bids(self.offers[i].state) {
            Err(SwapError::OfferNotFound)
        } else if (self.offers[i].terms is Auction) != auction {
            Err(SwapError::WrongStrategy)
        } else if request.amount.precision != self.offers[i].amount.precision {
            Err(SwapError::PrecisionMismatch)
        } else if request.amount.value > self.offers[i].remaining {
            Err(SwapError::AmountExceedsOffer)
        } else {
            Ok(())
        }
    }

    /// The bid that a request creates.
    pub open spec fn new_bid(self, buyer: Hash256, request: BidRequest) -> Bid {
        Bid {
            id: self.bids.len() as u64,
            offer: request.offer_id,
            buyer,
            amount: request.amount.value,
            seal: request.seal,
            descriptor: request.descriptor,
            change_terminal: request.change_terminal,
            fee: request.fee,
            state: BidState::Created,
        }
    }

    /// The engine after a bid was placed: the bid is recorded, the offer is
    /// matched, and what the bid asks for is no longer open to others.
    pub open spec fn with_bid(self, buyer: Hash256, request: BidRequest, psbt: PsbtData) -> EngineState {
        let i = request.offer_id as int;
        EngineState {
            offers: self.offers.update(
                i,
                Offer {
                    remaining: (self.offers[i].remaining - request.amount.value) as u64,
                    state: OfferState::Matched,
                    ..self.offers[i]
                },
            ),
            bids: self.bids.push(self.new_bid(buyer, request)),
            bid_psbts: self.bid_psbts.push(psbt),
            ..self
        }
    }

    /// The engine after `create_buyer_bid` or `create_auction_bid`.
    pub open spec fn after_bid(
        self,
        buyer: Hash256,
        request: BidRequest,
        psbt: PsbtData,
        auction: bool,
        now: u64,
    ) -> EngineState {
        if self.bid_verdict(request, auction, now) is Ok {
            self.with_bid(buyer, request, psbt)
        } else {
            self.swept(request.offer_id as int, now)
        }
    }

    /// Whether the seller may attach a signed fragment to an offer.
    pub open spec fn update_verdict(self, caller: Hash256, offer_id: u64) -> Result<(), SwapError> {
        let i = offer_id as int;
        if i >= self.offers.len() || self.offers[i].seller != caller || !takes_bids(
            self.offers[i].state,
        ) {
            Err(SwapError::OfferNotFound)
        } else if !(self.offers[i].terms is P2P) {
            Err(SwapError::WrongStrategy)
        } else {
            Ok(())
        }
    }

    /// The engine after the seller attached a fragment to a P2P offer.
    pub open spec fn updated(self, offer_id: u64, psbt: PsbtData) -> EngineState {
        let i = offer_id as int;
        let signed = fully_signed(psbt.inputs);
        EngineState {
            offers: self.offers.update(
                i,
                Offer {
                    terms: Terms::P2P { seller_signed: signed },
                    state: if self.offers[i].state is Matched {
                        OfferState::Matched
                    } else if signed {
                        OfferState::SellerSigned
                    } else {
                        OfferState::Open
                    },
                    ..self.offers[i]
                },
            ),
            offer_psbts: self.offer_psbts.update(i, psbt),
            ..self
        }
    }

    /// The merged transaction of an offer and a bid, with the transition of
    /// the swap, or why there is none.
    ///
    /// The checks are made in this order: one bid only; a P2P offer signed by
    /// its seller; fragments that merge; and a transition that the engine can
    /// complete, as `swap_assignments` says.
    pub open spec fn swap_verdict(self, offer: int, bid: int, buyer_psbt: PsbtData) -> Result<
        PsbtData,
        SwapError,
    > {
        if active_bids(self.bids, offer as u64) > 1 {
            Err(SwapError::AmbiguousBid)
        } else if self.offers[offer].terms == (Terms::P2P { seller_signed: false }) {
            Err(SwapError::SellerNotSigned)
        } else {
            match merge_spec(self.offer_psbts[offer], buyer_psbt) {
                Err(e) => Err(SwapError::Merge(e)),
                Ok(merged) => match swap_assignments(
                    merged,
                    self.bids[bid],
                    self.offers[offer].change_vout,
                ) {
                    Err(e) => Err(e),
                    Ok(assignments) => Ok(
                        PsbtData {
                            inputs: merged.inputs,
                            outputs: merged.outputs,
                            contract: merged.contract,
                            spends: merged.spends,
                            assignments,
                        },
                    ),
                },
            }
        }
    }

    /// The engine after a swap transfer: offer and bid are finalizing, the
    /// offer knows its anchor, and the bid keeps the buyer's fragment.
    pub open spec fn swapped(self, offer: int, bid: int, buyer_psbt: PsbtData, merged: PsbtData) -> EngineState {
        EngineState {
            offers: self.offers.update(
                offer,
                Offer {
                    state: OfferState::Finalizing,
                    anchor: Some(merged.txid()),
                    ..self.offers[offer]
                },
            ),
            bids: self.bids.update(bid, Bid { state: BidState::Finalizing, ..self.bids[bid] }),
            bid_psbts: self.bid_psbts.update(bid, buyer_psbt),
            ..self
        }
    }

    /// The party that completes a swap: the buyer of a P2P offer, whose seller
    /// signed first, and the seller of any other.
    pub open spec fn completer(self, offer: int, bid: int) -> Hash256 {
        if self.offers[offer].terms is P2P {
            self.bids[bid].buyer
        } else {
            self.offers[offer].seller
        }
    }

    /// The merged transaction that `create_swap_transfer` makes, or why it makes none.
    ///
    /// The offer and the bid must exist and belong together. The caller must
    /// be the party that completes the swap; to anyone else the offer is not
    /// there. The offer must not be past its time, must be matched, and the
    /// bid must still stand. Then `swap_verdict` decides.
    pub open spec fn transfer_verdict(
        self,
        caller: Hash256,
        offer_id: u64,
        bid_id: u64,
        buyer_psbt: PsbtData,
        now: u64,
    ) -> Result<PsbtData, SwapError> {
        let i = offer_id as int;
        let j = bid_id as int;
        if i >= self.offers.len() {
            Err(SwapError::OfferNotFound)
        } else if j >= self.bids.len() || self.bids[j].offer != offer_id {
            Err(SwapError::BidNotFound)
        } else if caller != self.completer(i, j) {
            Err(SwapError::OfferNotFound)
        } else if self.offers[i].state is Expired || self.lapses(i, now) {
            Err(SwapError::OfferExpired)
        } else if !(self.offers[i].state is Matched) {
            Err(SwapError::OfferNotFound)
        } else if !(self.bids[j].state is Created) {
            Err(SwapError::BidNotFound)
        } else {
            self.swap_verdict(i, j, buyer_psbt)
        }
    }

    /// The engine after `create_swap_transfer`.
    pub open spec fn after_transfer(
        self,
        caller: Hash256,
        offer_id: u64,
        bid_id: u64,
        buyer_psbt: PsbtData,
        now: u64,
    ) -> EngineState {
        match self.transfer_verdict(caller, offer_id, bid_id, buyer_psbt, now) {
            Ok(merged) => self.swapped(offer_id as int, bid_id as int, buyer_psbt, merged),
            Err(SwapError::OfferExpired) => self.swept(offer_id as int, now),
            Err(_) => self,
        }
    }

    /// Whether a report of the chain settles the offer.
    pub open spec fn settles(self, offer: int, status: AnchorStatus) -> bool {
        &&& self.offers[offer].state is Finalizing
        &&& status matches AnchorStatus::Confirmed(depth)
        &&& depth >= self.min_confirmations
        &&& depth >= 1
    }

    /// The bundles after an offer settled: the bundle of an auction offer is
    /// finalized once bidding on it is closed and none of its swaps is under way.
    pub open spec fn bundles_after(self, offer: int, offers: Seq<Offer>) -> Seq<Bundle> {
        match self.offers[offer].terms {
            Terms::Auction { bundle } => if bundle < self.bundles.len()
                && self.bundles[bundle as int].state is Closed && !in_flight(offers, bundle) {
                self.bundles.update(
                    bundle as int,
                    Bundle { state: BundleState::Finalized, ..self.bundles[bundle as int] },
                )
            } else {
                self.bundles
            },
            _ => self.bundles,
        }
    }

    /// The engine after the offer settled: the offer is settled, and so is the
    /// bid that was finalizing on it; the bundle of an auction offer is
    /// finalized if this was the last of its swaps.
    pub open spec fn settled(self, offer: int) -> EngineState {
        EngineState {
            offers: self.offers.update(
                offer,
                Offer { state: OfferState::Settled, ..self.offers[offer] },
            ),
            bundles: self.bundles_after(
                offer,
                self.offers.update(offer, Offer { state: OfferState::Settled, ..self.offers[offer] }),
            ),
            bids: Seq::new(
                self.bids.len(),
                |j: int|
                    if self.bids[j].offer == offer as u64 && self.bids[j].state is Finalizing {
                        Bid { state: BidState::Settled, ..self.bids[j] }
                    } else {
                        self.bids[j]
                    },
            ),
            ..self
        }
    }

    /// What closing one offer of an auction does.
    ///
    /// An offer that no longer takes bids stays as it is. One whose time has
    /// passed expires. One without a bid is cancelled. One with a single bid
    /// goes through the swap transfer with the fragment that the bid brought.
    /// One with several bids fails the whole closing.
    pub open spec fn close_verdict(self, offer: int, now: u64) -> Result<Option<SwapData>, SwapError> {
        if !takes_bids(self.offers[offer].state) || self.lapses(offer, now) {
            Ok(None)
        } else {
            match active_bid(self.bids, offer as u64) {
                None => Ok(None),
                Some(bid) => match self.swap_verdict(offer, bid, self.bid_psbts[bid]) {
                    Err(e) => Err(e),
                    Ok(merged) => Ok(
                        Some(
                            SwapData { offer_id: offer as u64, bid_id: bid as u64, final_psbt: merged },
                        ),
                    ),
                },
            }
        }
    }

    /// The engine after one offer of an auction was closed.
    pub open spec fn closed(self, offer: int, now: u64) -> EngineState {
        if !takes_bids(self.offers[offer].state) {
            self
        } else if self.lapses(offer, now) {
            self.with_offer_state(offer, OfferState::Expired)
        } else {
            match active_bid(self.bids, offer as u64) {
                None => self.with_offer_state(offer, OfferState::Cancelled),
                Some(bid) => match self.swap_verdict(offer, bid, self.bid_psbts[bid]) {
                    Err(_) => self,
                    Ok(merged) => self.swapped(offer, bid, self.bid_psbts[bid], merged),
                },
            }
        }
    }

    /// Whether the offer belongs to the bundle.
    pub open spec fn member(self, offer: int, bundle: u64) -> bool {
        self.offers[offer].terms == (Terms::Auction { bundle })
    }

    /// Closing the first `upto` offers as far as they belong to the bundle:
    /// the engine afterwards with the swaps made, or the first error.
    pub open spec fn finish_upto(self, bundle: u64, now: u64, upto: nat) -> Result<
        (EngineState, Seq<SwapData>),
        SwapError,
    >
        decreases upto,
    {
        if upto == 0 {
            Ok((self, Seq::empty()))
        } else {
            let k = (upto - 1) as int;
            match self.finish_upto(bundle, now, (upto - 1) as nat) {
                Err(e) => Err(e),
                Ok((s, swaps)) => if !s.member(k, bundle) {
                    Ok((s, swaps))
                } else {
                    match s.close_verdict(k, now) {
                        Err(e) => Err(e),
                        Ok(None) => Ok((s.closed(k, now), swaps)),
                        Ok(Some(swap)) => Ok((s.closed(k, now), swaps.push(swap))),
                    }
                },
            }
        }
    }

    /// Whether the seller may close the bundle.
    pub open spec fn bundle_open(self, caller: Hash256, bundle: u64) -> bool {
        &&& bundle < self.bundles.len()
        &&& self.bundles[bundle as int].seller == caller
        &&& self.bundles[bundle as int].state is Open
    }

    /// The engine with bidding on a bundle closed: the bundle is closed while
    /// one of its swaps is under way, and finalized at once if none is.
    pub open spec fn with_bundle_done(self, bundle: u64) -> EngineState {
        EngineState {
            bundles: self.bundles.update(
                bundle as int,
                Bundle {
                    state: if in_flight(self.offers, bundle) {
                        BundleState::Closed
                    } else {
                        BundleState::Finalized
                    },
                    ..self.bundles[bundle as int]
                },
            ),
            ..self
        }
    }

    /// What `finish_auction_offers` returns: the swaps made, or why nothing was done.
    pub open spec fn finish_verdict(self, caller: Hash256, bundle: u64, now: u64) -> Result<
        Seq<SwapData>,
        SwapError,
    > {
        if !self.bundle_open(caller, bundle) {
            Err(SwapError::BundleNotFound)
        } else {
            match self.finish_upto(bundle, now, self.offers.len()) {
                Err(e) => Err(e),
                Ok((_, swaps)) => Ok(swaps),
            }
        }
    }

    /// The engine after `finish_auction_offers`: all of it done, or nothing.
    pub open spec fn finished(self, caller: Hash256, bundle: u64, now: u64) -> EngineState {
        if !self.bundle_open(caller, bundle) {
            self
        } else {
            match self.finish_upto(bundle, now, self.offers.len()) {
                Err(_) => self,
                Ok((s, _)) => s.with_bundle_done(bundle),
            }
        }
    }
}


/// The bid that `active_bid` names is a bid on the offer that still stands;
/// there is one exactly when `active_bids` counts one or more.
pub proof fn lemma_active_bid(bids: Seq<Bid>, offer: u64)
    ensures
        active_bid(bids, offer) is Some <==> active_bids(bids, offer) > 0,
        active_bid(bids, offer) matches Some(j) ==> 0 <= j < bids.len() && bids[j].offer == offer
            && bids[j].state is Created,
    decreases bids.len(),
{
    if bids.len() > 0 {
        lemma_active_bid(bids.drop_last(), offer);
    }
}

impl EngineState {
    /// Creating an offer keeps the engine well formed.
    pub proof fn lemma_offered_wf(
        self,
        seller: Hash256,
        request: OfferRequest,
        psbt: PsbtData,
        keys: Seq<u64>,
        bundle: u64,
    )
        requires
            self.wf(),
            self.offers.len() < u64::MAX,
        ensures
            self.offered(seller, request, psbt, keys, bundle).wf(),
    {
        let after = self.offered(seller, request, psbt, keys, bundle);
        assert forall|j: int| 0 <= j < after.bids.len() implies (#[trigger] after.bids[j]).id == j
            && after.bids[j].offer < after.offers.len() by {
            assert(after.bids[j] == self.bids[j]);
        }
    }

    /// Creating the offers of an auction keeps the engine well formed, and
    /// adds one offer for each request.
    pub proof fn lemma_auctioned_wf(
        self,
        seller: Hash256,
        requests: Seq<OfferRequest>,
        psbts: Seq<PsbtData>,
        bundle: u64,
    )
        requires
            self.wf(),
            self.offers.len() + requests.len() <= u64::MAX,
        ensures
            self.auctioned(seller, requests, psbts, bundle).wf(),
            self.auctioned(seller, requests, psbts, bundle).offers.len() == self.offers.len()
                + requests.len(),
            self.auctioned(seller, requests, psbts, bundle).bids == self.bids,
            self.auctioned(seller, requests, psbts, bundle).bid_psbts == self.bid_psbts,
            self.auctioned(seller, requests, psbts, bundle).bundles == self.bundles,
            self.auctioned(seller, requests, psbts, bundle).min_confirmations
                == self.min_confirmations,
        decreases requests.len(),
    {
        if requests.len() > 0 {
            self.lemma_auctioned_wf(seller, requests.drop_last(), psbts.drop_last(), bundle);
            self.auctioned(seller, requests.drop_last(), psbts.drop_last(), bundle).lemma_offered_wf(
                seller,
                requests.last(),
                psbts.last(),
                Seq::empty(),
                bundle,
            );
        }
    }

    /// Setting the state of an offer keeps the engine well formed.
    pub proof fn lemma_with_offer_state_wf(self, offer: int, state: OfferState)
        requires
            self.wf(),
            0 <= offer < self.offers.len(),
        ensures
            self.with_offer_state(offer, state).wf(),
    {
        let after = self.with_offer_state(offer, state);
        assert forall|j: int| 0 <= j < after.bids.len() implies (#[trigger] after.bids[j]).id == j
            && after.bids[j].offer < after.offers.len() by {
            assert(after.bids[j] == self.bids[j]);
        }
    }

    /// Lazy expiry keeps the engine well formed.
    pub proof fn lemma_swept_wf(self, offer: int, now: u64)
        requires
            self.wf(),
        ensures
            self.swept(offer, now).wf(),
    {
        if 0 <= offer < self.offers.len() && self.lapses(offer, now) {
            self.lemma_with_offer_state_wf(offer, OfferState::Expired);
        }
    }

    /// Placing a bid that the offer has room for keeps the engine well formed.
    pub proof fn lemma_with_bid_wf(self, buyer: Hash256, request: BidRequest, psbt: PsbtData)
        requires
            self.wf(),
            request.offer_id < self.offers.len(),
            request.amount.value <= self.offers[request.offer_id as int].remaining,
            self.bids.len() < u64::MAX,
        ensures
            self.with_bid(buyer, request, psbt).wf(),
    {
        let after = self.with_bid(buyer, request, psbt);
        assert forall|j: int| 0 <= j < after.bids.len() implies (#[trigger] after.bids[j]).id == j
            && after.bids[j].offer < after.offers.len() by {
            if j < self.bids.len() {
                assert(after.bids[j] == self.bids[j]);
            }
        }
    }

    /// Attaching a fragment to an offer keeps the engine well formed.
    pub proof fn lemma_updated_wf(self, offer_id: u64, psbt: PsbtData)
        requires
            self.wf(),
            offer_id < self.offers.len(),
        ensures
            self.updated(offer_id, psbt).wf(),
    {
        let after = self.updated(offer_id, psbt);
        assert forall|j: int| 0 <= j < after.bids.len() implies (#[trigger] after.bids[j]).id == j
            && after.bids[j].offer < after.offers.len() by {
            assert(after.bids[j] == self.bids[j]);
        }
    }

    /// A swap transfer keeps the engine well formed.
    pub proof fn lemma_swapped_wf(self, offer: int, bid: int, buyer_psbt: PsbtData, merged: PsbtData)
        requires
            self.wf(),
            0 <= offer < self.offers.len(),
            0 <= bid < self.bids.len(),
        ensures
            self.swapped(offer, bid, buyer_psbt, merged).wf(),
            self.swapped(offer, bid, buyer_psbt, merged).offers.len() == self.offers.len(),
    {
        let after = self.swapped(offer, bid, buyer_psbt, merged);
        assert forall|j: int| 0 <= j < after.bids.len() implies (#[trigger] after.bids[j]).id == j
            && after.bids[j].offer < after.offers.len() by {
            assert(self.bids[j].id == j);
        }
    }

    /// Settling an offer keeps the engine well formed.
    pub proof fn lemma_settled_wf(self, offer: int)
        requires
            self.wf(),
            0 <= offer < self.offers.len(),
        ensures
            self.settled(offer).wf(),
    {
        let after = self.settled(offer);
        assert forall|j: int| 0 <= j < after.bids.len() implies (#[trigger] after.bids[j]).id == j
            && after.bids[j].offer < after.offers.len() by {
            assert(self.bids[j].id == j);
        }
    }

    /// Closing one offer of an auction keeps the engine well formed and the
    /// number of offers as it is.
    pub proof fn lemma_closed_wf(self, offer: int, now: u64)
        requires
            self.wf(),
            0 <= offer < self.offers.len(),
        ensures
            self.closed(offer, now).wf(),
            self.closed(offer, now).offers.len() == self.offers.len(),
            self.closed(offer, now).bundles == self.bundles,
    {
        if !takes_bids(self.offers[offer].state) {
        } else if self.lapses(offer, now) {
            self.lemma_with_offer_state_wf(offer, OfferState::Expired);
        } else {
            lemma_active_bid(self.bids, offer as u64);
            match active_bid(self.bids, offer as u64) {
                None => {
                    self.lemma_with_offer_state_wf(offer, OfferState::Cancelled);
                },
                Some(bid) => {
                    match self.swap_verdict(offer, bid, self.bid_psbts[bid]) {
                        Err(_) => {},
                        Ok(merged) => {
                            self.lemma_swapped_wf(offer, bid, self.bid_psbts[bid], merged);
                        },
                    }
                },
            }
        }
    }

    /// Closing the offers of a bundle keeps the engine well formed and the
    /// number of offers as it is.
    pub proof fn lemma_finish_upto_wf(self, bundle: u64, now: u64, upto: nat)
        requires
            self.wf(),
            upto <= self.offers.len(),
        ensures
            self.finish_upto(bundle, now, upto) matches Ok((s, _)) ==> s.wf() && s.offers.len()
                == self.offers.len() && s.bundles == self.bundles,
        decreases upto,
    {
        if upto > 0 {
            self.lemma_finish_upto_wf(bundle, now, (upto - 1) as nat);
            match self.finish_upto(bundle, now, (upto - 1) as nat) {
                Err(_) => {},
                Ok((s, _)) => {
                    s.lemma_closed_wf(upto - 1, now);
                },
            }
        }
    }

    /// Once closing the offers of a bundle has failed, it fails the same way
    /// however many more offers are looked at.
    pub proof fn lemma_finish_failure_stays(self, bundle: u64, now: u64, upto: nat, later: nat)
        requires
            upto <= later,
            self.finish_upto(bundle, now, upto) is Err,
        ensures
            self.finish_upto(bundle, now, later) == self.finish_upto(bundle, now, upto),
        decreases later,
    {
        if upto < later {
            self.lemma_finish_failure_stays(bundle, now, upto, (later - 1) as nat);
        }
    }

    /// Closing a bundle keeps the engine well formed, whatever comes of it.
    pub proof fn lemma_finished_wf(self, caller: Hash256, bundle: u64, now: u64)
        requires
            self.wf(),
        ensures
            self.finished(caller, bundle, now).wf(),
    {
        if self.bundle_open(caller, bundle) {
            self.lemma_finish_upto_wf(bundle, now, self.offers.len());
            match self.finish_upto(bundle, now, self.offers.len()) {
                Err(_) => {},
                Ok((s, _)) => {
                    let after = s.with_bundle_done(bundle);
                    assert forall|j: int| 0 <= j < after.bids.len() implies (
                    #[trigger] after.bids[j]).id == j && after.bids[j].offer
                        < after.offers.len() by {
                        assert(after.bids[j] == s.bids[j]);
                    }
                },
            }
        }
    }

    /// An offer that a seller may make, followed by a bid: the bid succeeds if
    /// it asks for no more than the offer sells, and fails with
    /// `AmountExceedsOffer` if it asks for more.
    ///
    /// This holds of offers made one by one and bid on with
    /// `create_buyer_bid`, and of offers of an auction bid on with
    /// `create_auction_bid`. The bid is written in the offer's precision and
    /// comes before the offer's time has passed.
    pub proof fn lemma_offer_then_bid(
        self,
        ledger: LedgerState,
        request: OfferRequest,
        psbt: PsbtData,
        keys: Seq<u64>,
        bundle: u64,
        auction: bool,
        bid: BidRequest,
        now: u64,
    )
        requires
            self.wf(),
            self.offers.len() < u64::MAX,
            knows(ledger.contracts, request.contract),
            request.amount.precision == contract_of(ledger.contracts, request.contract).precision,
            ledger.balance(request.contract) >= request.amount.value,
            (request.strategy is Auction) == auction,
            bid.offer_id == self.offers.len(),
            bid.amount.precision == request.amount.precision,
            now < request.expire_at,
        ensures
            offer_verdict(ledger, request, auction) is Ok,
            bid.amount.value <= request.amount.value ==> self.offered(
                ledger.identity,
                request,
                psbt,
                keys,
                bundle,
            ).bid_verdict(bid, auction, now) is Ok,
            bid.amount.value > request.amount.value ==> self.offered(
                ledger.identity,
                request,
                psbt,
                keys,
                bundle,
            ).bid_verdict(bid, auction, now) == Err::<(), SwapError>(SwapError::AmountExceedsOffer),
    {
    }

    /// An offer whose time has passed takes no bid: the bid fails with
    /// `OfferExpired`, whether or not anything marked the offer as expired
    /// before, and the offer is expired afterwards unless it had reached
    /// another final state.
    pub proof fn lemma_expired_offer_takes_no_bid(
        self,
        buyer: Hash256,
        request: BidRequest,
        psbt: PsbtData,
        auction: bool,
        now: u64,
    )
        requires
            self.wf(),
            request.offer_id < self.offers.len(),
            now >= self.offers[request.offer_id as int].expire_at,
        ensures
            self.bid_verdict(request, auction, now) == Err::<(), SwapError>(SwapError::OfferExpired),
            self.after_bid(buyer, request, psbt, auction, now).bids == self.bids,
            takes_bids(self.offers[request.offer_id as int].state) ==> self.after_bid(
                buyer,
                request,
                psbt,
                auction,
                now,
            ).offers[request.offer_id as int].state is Expired,
    {
    }

    /// An offer that is settled, cancelled or being finalized takes no bid:
    /// the bid fails with `OfferNotFound`, or with `OfferExpired` if the
    /// offer's time has passed as well, and nothing changes.
    pub proof fn lemma_closed_offer_takes_no_bid(
        self,
        buyer: Hash256,
        request: BidRequest,
        psbt: PsbtData,
        auction: bool,
        now: u64,
    )
        requires
            self.wf(),
            request.offer_id < self.offers.len(),
            self.offers[request.offer_id as int].state is Settled
                || self.offers[request.offer_id as int].state is Cancelled
                || self.offers[request.offer_id as int].state is Finalizing,
        ensures
            self.bid_verdict(request, auction, now) == Err::<(), SwapError>(
                if now >= self.offers[request.offer_id as int].expire_at {
                    SwapError::OfferExpired
                } else {
                    SwapError::OfferNotFound
                },
            ),
            self.after_bid(buyer, request, psbt, auction, now) == self,
    {
    }

    /// Settled, expired and cancelled are final: no bid, transfer, update,
    /// closing or report of the chain changes an offer in one of these states.
    pub proof fn lemma_final_states_are_final(
        self,
        offer: int,
        caller: Hash256,
        bid: BidRequest,
        bid_id: u64,
        psbt: PsbtData,
        auction: bool,
        now: u64,
        status: AnchorStatus,
    )
        requires
            self.wf(),
            0 <= offer < self.offers.len(),
            bid.offer_id == offer,
            self.offers[offer].state is Settled || self.offers[offer].state is Expired
                || self.offers[offer].state is Cancelled,
        ensures
            self.bid_verdict(bid, auction, now) is Err,
            self.after_bid(caller, bid, psbt, auction, now) == self,
            self.update_verdict(caller, offer as u64) is Err,
            self.transfer_verdict(caller, offer as u64, bid_id, psbt, now) is Err,
            self.after_transfer(caller, offer as u64, bid_id, psbt, now) == self,
            self.closed(offer, now) == self,
            !self.settles(offer, status),
    {
    }

    /// A swap is made once: after a transfer, the offer is finalizing and
    /// knows its anchor, and a second transfer on it fails and changes nothing.
    pub proof fn lemma_transfer_once(
        self,
        caller: Hash256,
        offer_id: u64,
        bid_id: u64,
        psbt: PsbtData,
        now: u64,
        other_caller: Hash256,
        other_bid: u64,
        other_psbt: PsbtData,
        later: u64,
    )
        requires
            self.wf(),
            self.transfer_verdict(caller, offer_id, bid_id, psbt, now) is Ok,
        ensures
            ({
                let after = self.after_transfer(caller, offer_id, bid_id, psbt, now);
                &&& after.wf()
                &&& after.offers[offer_id as int].state is Finalizing
                &&& after.offers[offer_id as int].anchor == Some(
                    self.transfer_verdict(caller, offer_id, bid_id, psbt, now)->Ok_0.txid(),
                )
                &&& after.bids[bid_id as int].state is Finalizing
                &&& after.transfer_verdict(other_caller, offer_id, other_bid, other_psbt, later)
                    is Err
                &&& after.after_transfer(other_caller, offer_id, other_bid, other_psbt, later)
                    == after
            }),
    {
        let merged = self.transfer_verdict(caller, offer_id, bid_id, psbt, now)->Ok_0;
        self.lemma_swapped_wf(offer_id as int, bid_id as int, psbt, merged);
    }

    /// Balance conservation: the consignment of a swap is valid for both
    /// parties, and once both have accepted it, the seller holds exactly the
    /// bid's amount less and the buyer exactly the bid's amount more. This
    /// holds of every strategy, since every swap goes through `swap_verdict`.
    ///
    /// Both parties know the contract and accept the consignment for the
    /// first time, after the chain has seen its anchor. The seller holds
    /// every allocation that the swap consumes, with the amount claimed, and
    /// none of the seals that it pays. The buyer holds every seal that it
    /// pays and none of the allocations, and stays within the supply. No
    /// allocation is consumed twice, or was consumed before.
    pub proof fn lemma_swap_conserves_balance(
        self,
        offer: int,
        bid: int,
        buyer_psbt: PsbtData,
        seller: LedgerState,
        seller_view: AnchorStatus,
        buyer: LedgerState,
        buyer_view: AnchorStatus,
    )
        requires
            self.wf(),
            0 <= offer < self.offers.len(),
            0 <= bid < self.bids.len(),
            self.swap_verdict(offer, bid, buyer_psbt) is Ok,
            seller.wf(),
            buyer.wf(),
            !(seller_view is Unknown),
            !(buyer_view is Unknown),
            ({
                let c = self.swap_verdict(offer, bid, buyer_psbt)->Ok_0.consignment();
                &&& knows(seller.contracts, c.contract)
                &&& knows(buyer.contracts, c.contract)
                &&& !is_accepted(seller.transfers, c.id)
                &&& !is_accepted(buyer.transfers, c.id)
                &&& distinct(c.inputs)
                &&& !already_spent(seller.spent, c.contract, c.inputs)
                &&& !already_spent(buyer.spent, c.contract, c.inputs)
                &&& c.inputs.len() > 0
                &&& forall|k: int|
                    0 <= k < c.inputs.len() ==> holds_at(
                        seller.allocations,
                        c.contract,
                        (#[trigger] c.inputs[k]).outpoint,
                    ) && held_at(seller.allocations, c.contract, c.inputs[k].outpoint)
                        == c.inputs[k].amount
                &&& forall|k: int|
                    0 <= k < c.outputs.len() ==> ((
                    #[trigger] c.outputs[k]).target matches SealTarget::Blinded(seal)
                        ==> !open_seal(seller.seals, seal) && open_seal(buyer.seals, seal))
                &&& !buyer.sends(c)
                &&& buyer.balance(c.contract) + self.bids[bid].amount <= contract_of(
                    buyer.contracts,
                    c.contract,
                ).supply
            }),
        ensures
            ({
                let c = self.swap_verdict(offer, bid, buyer_psbt)->Ok_0.consignment();
                &&& seller.acceptance(c, seller_view).valid
                &&& buyer.acceptance(c, buyer_view).valid
                &&& seller.accepted(c, seller_view).balance(c.contract) == seller.balance(c.contract)
                    - self.bids[bid].amount
                &&& buyer.accepted(c, buyer_view).balance(c.contract) == buyer.balance(c.contract)
                    + self.bids[bid].amount
            }),
    {
        let full = self.swap_verdict(offer, bid, buyer_psbt)->Ok_0;
        let c = full.consignment();
        let merged = merge_spec(self.offer_psbts[offer], buyer_psbt)->Ok_0;
        lemma_swap_assignments(merged, self.bids[bid], self.offers[offer].change_vout);
        assert(blinded_total(c.outputs) == self.bids[bid].amount);
        assert(c.sound());
        seller.lemma_sender_accepts(c, seller_view);
        buyer.lemma_receiver_accepts(c, buyer_view);
    }
}

} // verus!
