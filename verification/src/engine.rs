//! The swap engine: offers, bids and auction bundles, as executable code.

use vstd::prelude::*;
use crate::consignment::{
    total_assigned, total_blinded, total_spent, Assignment, Consignment, SealTarget,
};
use crate::ids::Hash256;
use crate::ledger::AnchorStatus;
use crate::psbt::{copy_psbt, merge, Psbt, PsbtData};
use crate::signing::sign;
use crate::swap::{
    active_bid, active_bids, auction_verdict, in_flight, lemma_active_bid, lemma_swap_assignments,
    offer_verdict, swap_assignments, swap_rest, takes_bids, Bid,
    BidRequest, BidState, Bundle, BundleState, EngineState, Offer, OfferRequest, OfferState,
    SwapData, SwapError, SwapStrategy, Terms,
};
use crate::watcher::Watcher;

verus! {

/// The engine that carries offers from creation to settlement.
pub struct SwapEngine {
    offers: Vec<Offer>,
    offer_psbts: Vec<Psbt>,
    bids: Vec<Bid>,
    bid_psbts: Vec<Psbt>,
    bundles: Vec<Bundle>,
    min_confirmations: u32,
}

/// What a swap transfer hands back: the merged transaction, not yet complete
/// in its signatures, and the consignment that it anchors, not yet broadcast.
#[derive(Clone, Debug, PartialEq, Eq)]
pub struct SwapTransfer {
    pub offer_id: u64,
    pub bid_id: u64,
    pub final_psbt: Psbt,
    pub consignment: Consignment,
}

/// One offer of an auction, with the seller's fragment for it.
#[derive(Clone, Debug, PartialEq, Eq)]
pub struct AuctionItem {
    pub request: OfferRequest,
    pub psbt: Psbt,
}

/// The bundle that `create_auction_offers` made, with its offers.
#[derive(Clone, Debug, PartialEq, Eq)]
pub struct AuctionBundle {
    pub bundle_id: u64,
    pub offers: Vec<Offer>,
}

/// The fragments of a list, as values.
pub open spec fn psbt_views(list: Seq<Psbt>) -> Seq<PsbtData> {
    Seq::new(list.len(), |i: int| list[i]@)
}

/// The requests of the items of an auction.
pub open spec fn item_requests(items: Seq<AuctionItem>) -> Seq<OfferRequest> {
    Seq::new(items.len(), |i: int| items[i].request)
}

/// The fragments of the items of an auction.
pub open spec fn item_psbts(items: Seq<AuctionItem>) -> Seq<PsbtData> {
    Seq::new(items.len(), |i: int| items[i].psbt@)
}

impl SwapTransfer {
    /// Whether the transfer is this swap, with the consignment that its
    /// transaction anchors.
    pub open spec fn carries(&self, swap: SwapData) -> bool {
        &&& self.offer_id == swap.offer_id
        &&& self.bid_id == swap.bid_id
        &&& self.final_psbt@ == swap.final_psbt
        &&& self.consignment@ == swap.final_psbt.consignment()
    }
}

impl View for SwapEngine {
    type V = EngineState;

    closed spec fn view(&self) -> EngineState {
        EngineState {
            offers: self.offers@,
            offer_psbts: psbt_views(self.offer_psbts@),
            bids: self.bids@,
            bid_psbts: psbt_views(self.bid_psbts@),
            bundles: self.bundles@,
            min_confirmations: self.min_confirmations,
        }
    }
}

/// Counts the bids on an offer that still stand, and names the last of them.
fn count_active(bids: &Vec<Bid>, offer: u64) -> (r: (usize, Option<usize>))
    ensures
        r.0 == active_bids(bids@, offer),
        match r.1 {
            Some(j) => active_bid(bids@, offer) == Some(j as int),
            None => active_bid(bids@, offer) is None,
        },
{
    let mut count: usize = 0;
    let mut last: Option<usize> = None;
    let mut j: usize = 0;
    while j < bids.len()
        invariant
            j <= bids.len(),
            count == active_bids(bids@.subrange(0, j as int), offer),
            count <= j,
            match last {
                Some(k) => active_bid(bids@.subrange(0, j as int), offer) == Some(k as int),
                None => active_bid(bids@.subrange(0, j as int), offer) is None,
            },
        decreases bids.len() - j,
    {
        proof {
            assert(bids@.subrange(0, j as int + 1).drop_last() =~= bids@.subrange(0, j as int));
            assert(bids@.subrange(0, j as int + 1).last() == bids@[j as int]);
        }
        let standing = match bids[j].state {
            BidState::Created => bids[j].offer == offer,
            _ => false,
        };
        if standing {
            count += 1;
            last = Some(j);
        }
        j += 1;
    }
    assert(bids@.subrange(0, j as int) =~= bids@);
    (count, last)
}

/// Whether a seller may offer what the request asks.
fn check_offer(seller: &Watcher, request: &OfferRequest, auction: bool) -> (r: Result<(), SwapError>)
    requires
        seller@.wf(),
    ensures
        r == offer_verdict(seller@, *request, auction),
{
    let precision = match seller.contract(request.contract) {
        Some(c) => c.precision,
        None => {
            return Err(SwapError::UnknownContract);
        },
    };
    if request.amount.precision != precision {
        return Err(SwapError::PrecisionMismatch);
    }
    let held = match seller.balance(request.contract) {
        Ok(b) => b,
        Err(_) => {
            return Err(SwapError::UnknownContract);
        },
    };
    if held < request.amount.value {
        return Err(SwapError::InsufficientAllocation);
    }
    let is_auction = match request.strategy {
        SwapStrategy::Auction => true,
        _ => false,
    };
    if is_auction != auction {
        return Err(SwapError::WrongStrategy);
    }
    Ok(())
}

/// Whether one of the offers of the bundle is finalizing.
fn any_in_flight(offers: &Vec<Offer>, bundle: u64) -> (r: bool)
    ensures
        r == in_flight(offers@, bundle),
{
    let mut i: usize = 0;
    while i < offers.len()
        invariant
            i <= offers.len(),
            forall|k: int|
                0 <= k < i ==> !((#[trigger] offers@[k]).terms == (Terms::Auction { bundle })
                    && offers@[k].state is Finalizing),
        decreases offers.len() - i,
    {
        let member = match offers[i].terms {
            Terms::Auction { bundle: b } => b == bundle,
            _ => false,
        };
        let finalizing = match offers[i].state {
            OfferState::Finalizing => true,
            _ => false,
        };
        if member && finalizing {
            return true;
        }
        i += 1;
    }
    false
}

fn is_open(state: OfferState) -> (r: bool)
    ensures
        r == takes_bids(state),
{
    match state {
        OfferState::Open => true,
        OfferState::SellerSigned => true,
        OfferState::Matched => true,
        _ => false,
    }
}

impl SwapEngine {
    /// An engine that holds nothing, and settles an offer once its anchor is
    /// `min_confirmations` blocks deep, and at least one.
    pub fn new(min_confirmations: u32) -> (e: SwapEngine)
        ensures
            e@ == EngineState::empty(min_confirmations),
            e@.wf(),
    {
        let e = SwapEngine {
            offers: Vec::new(),
            offer_psbts: Vec::new(),
            bids: Vec::new(),
            bid_psbts: Vec::new(),
            bundles: Vec::new(),
            min_confirmations,
        };
        assert(e@.offer_psbts =~= Seq::<PsbtData>::empty());
        assert(e@.bid_psbts =~= Seq::<PsbtData>::empty());
        e
    }

    /// The offer with this id.
    pub fn offer(&self, offer_id: u64) -> (r: Option<Offer>)
        ensures
            r == if offer_id < self@.offers.len() {
                Some(self@.offers[offer_id as int])
            } else {
                None
            },
    {
        if offer_id < self.offers.len() as u64 {
            Some(self.offers[offer_id as usize])
        } else {
            None
        }
    }

    /// The bid with this id.
    pub fn bid(&self, bid_id: u64) -> (r: Option<Bid>)
        ensures
            r == if bid_id < self@.bids.len() {
                Some(self@.bids[bid_id as int])
            } else {
                None
            },
    {
        if bid_id < self.bids.len() as u64 {
            Some(self.bids[bid_id as usize])
        } else {
            None
        }
    }

    /// The bundle with this id.
    pub fn bundle(&self, bundle_id: u64) -> (r: Option<Bundle>)
        ensures
            r == if bundle_id < self@.bundles.len() {
                Some(self@.bundles[bundle_id as int])
            } else {
                None
            },
    {
        if bundle_id < self.bundles.len() as u64 {
            Some(self.bundles[bundle_id as usize])
        } else {
            None
        }
    }

    /// A copy of the seller's fragment of an offer.
    pub fn offer_psbt(&self, offer_id: u64) -> (r: Option<Psbt>)
        requires
            self@.wf(),
        ensures
            match r {
                Some(p) => offer_id < self@.offers.len() && p@ == self@.offer_psbts[offer_id as int],
                None => offer_id >= self@.offers.len(),
            },
    {
        if offer_id < self.offers.len() as u64 {
            assert(self@.offer_psbts[offer_id as int] == self.offer_psbts@[offer_id as int]@);
            Some(copy_psbt(&self.offer_psbts[offer_id as usize]))
        } else {
            None
        }
    }

    /// The number of bids on an offer that still stand.
    pub fn standing_bids(&self, offer_id: u64) -> (n: usize)
        ensures
            n == active_bids(self@.bids, offer_id),
    {
        count_active(&self.bids, offer_id).0
    }

    fn set_offer(&mut self, i: usize, offer: Offer)
        requires
            i < old(self)@.offers.len(),
        ensures
            final(self)@ == (EngineState {
                offers: old(self)@.offers.update(i as int, offer),
                ..old(self)@
            }),
    {
        self.offers.set(i, offer);
    }

    fn set_bid(&mut self, j: usize, bid: Bid)
        requires
            j < old(self)@.bids.len(),
        ensures
            final(self)@ == (EngineState { bids: old(self)@.bids.update(j as int, bid), ..old(self)@ }),
    {
        self.bids.set(j, bid);
    }

    /// Lazy expiry of one offer.
    fn sweep(&mut self, i: usize, now: u64)
        requires
            old(self)@.wf(),
            i < old(self)@.offers.len(),
        ensures
            final(self)@ == old(self)@.swept(i as int, now),
            final(self)@.wf(),
    {
        proof {
            old(self)@.lemma_swept_wf(i as int, now);
        }
        let o = self.offers[i];
        if is_open(o.state) && now >= o.expire_at {
            self.set_offer(
                i,
                Offer {
                    id: o.id,
                    seller: o.seller,
                    contract: o.contract,
                    amount: o.amount,
                    remaining: o.remaining,
                    price: o.price,
                    descriptor: o.descriptor,
                    change_terminal: o.change_terminal,
                    change_vout: o.change_vout,
                    terms: o.terms,
                    expire_at: o.expire_at,
                    state: OfferState::Expired,
                    anchor: o.anchor,
                },
            );
        }
    }

    /// Records an offer that passed the checks.
    fn push_offer(
        &mut self,
        seller: Hash256,
        request: OfferRequest,
        psbt: Psbt,
        keys: &Vec<u64>,
        bundle: u64,
    ) -> (o: Offer)
        requires
            old(self)@.wf(),
        ensures
            o == old(self)@.new_offer(seller, request, psbt@, keys@, bundle),
            final(self)@ == old(self)@.offered(seller, request, psbt@, keys@, bundle),
            final(self)@.wf(),
            old(self)@.offers.len() < usize::MAX,
    {
        let id = self.offers.len() as u64;
        let ghost fragments = psbt_views(self.offer_psbts@);
        let (terms, state, kept) = match request.strategy {
            SwapStrategy::P2P => {
                let signed = sign(psbt, keys);
                let state = if signed.sign {
                    OfferState::SellerSigned
                } else {
                    OfferState::Open
                };
                (Terms::P2P { seller_signed: signed.sign }, state, signed.psbt)
            },
            SwapStrategy::HotSwap => (Terms::HotSwap, OfferState::Open, psbt),
            SwapStrategy::Auction => (Terms::Auction { bundle }, OfferState::Open, psbt),
        };
        let o = Offer {
            id,
            seller,
            contract: request.contract,
            amount: request.amount,
            remaining: request.amount.value,
            price: request.price,
            descriptor: request.descriptor,
            change_terminal: request.change_terminal,
            change_vout: request.change_vout,
            terms,
            expire_at: request.expire_at,
            state,
            anchor: None,
        };
        let ghost stored = kept@;
        self.offers.push(o);
        self.offer_psbts.push(kept);
        let count = self.offers.len();
        proof {
            assert(psbt_views(self.offer_psbts@) =~= fragments.push(stored));
            old(self)@.lemma_offered_wf(seller, request, psbt@, keys@, bundle);
        }
        o
    }

    /// Creates an offer of the seller whose ledger is `seller`.
    ///
    /// The seller must hold at least the amount offered, written in the
    /// contract's precision. The fragment of a P2P offer is signed at once
    /// with the keys of `keys`; for a hot swap, signing waits until the
    /// transfer. Offers of an auction are made by `create_auction_offers`.
    pub fn create_seller_offer(
        &mut self,
        seller: &Watcher,
        request: OfferRequest,
        psbt: Psbt,
        keys: &Vec<u64>,
    ) -> (r: Result<Offer, SwapError>)
        requires
            old(self)@.wf(),
            seller@.wf(),
        ensures
            final(self)@.wf(),
            match r {
                Ok(o) => offer_verdict(seller@, request, false) is Ok && o == old(self)@.new_offer(
                    seller@.identity,
                    request,
                    psbt@,
                    keys@,
                    0,
                ) && final(self)@ == old(self)@.offered(seller@.identity, request, psbt@, keys@, 0),
                Err(e) => offer_verdict(seller@, request, false) == Err::<(), SwapError>(e)
                    && final(self)@ == old(self)@,
            },
    {
        match check_offer(seller, &request, false) {
            Err(e) => Err(e),
            Ok(()) => Ok(self.push_offer(seller.identity(), request, psbt, keys, 0)),
        }
    }

    /// Attaches the seller's fragment, signed elsewhere, to a P2P offer.
    ///
    /// Fails with `OfferNotFound` if `caller` has no such offer that still
    /// takes bids, and with `WrongStrategy` if the offer is not P2P.
    pub fn update_seller_offer(&mut self, caller: Hash256, offer_id: u64, psbt: Psbt) -> (r: Result<
        Offer,
        SwapError,
    >)
        requires
            old(self)@.wf(),
        ensures
            final(self)@.wf(),
            match r {
                Ok(o) => old(self)@.update_verdict(caller, offer_id) is Ok && final(self)@ == old(
                    self,
                )@.updated(offer_id, psbt@) && o == final(self)@.offers[offer_id as int],
                Err(e) => old(self)@.update_verdict(caller, offer_id) == Err::<(), SwapError>(e)
                    && final(self)@ == old(self)@,
            },
    {
        if offer_id >= self.offers.len() as u64 {
            return Err(SwapError::OfferNotFound);
        }
        let i = offer_id as usize;
        let o = self.offers[i];
        if o.seller != caller || !is_open(o.state) {
            return Err(SwapError::OfferNotFound);
        }
        match o.terms {
            Terms::P2P { .. } => {},
            _ => {
                return Err(SwapError::WrongStrategy);
            },
        }
        let mut signed = true;
        let mut k: usize = 0;
        while k < psbt.inputs.len()
            invariant
                k <= psbt.inputs.len(),
                signed <==> forall|n: int| 0 <= n < k ==> (#[trigger] psbt.inputs@[n]).signed,
            decreases psbt.inputs.len() - k,
        {
            if !psbt.inputs[k].signed {
                signed = false;
            }
            k += 1;
        }
        let state = match o.state {
            OfferState::Matched => OfferState::Matched,
            _ => if signed {
                OfferState::SellerSigned
            } else {
                OfferState::Open
            },
        };
        let next = Offer {
            id: o.id,
            seller: o.seller,
            contract: o.contract,
            amount: o.amount,
            remaining: o.remaining,
            price: o.price,
            descriptor: o.descriptor,
            change_terminal: o.change_terminal,
                    change_vout: o.change_vout,
            terms: Terms::P2P { seller_signed: signed },
            expire_at: o.expire_at,
            state,
            anchor: o.anchor,
        };
        let ghost fragments = psbt_views(self.offer_psbts@);
        let ghost given = psbt@;
        self.offers.set(i, next);
        self.offer_psbts.set(i, psbt);
        proof {
            assert(psbt_views(self.offer_psbts@) =~= fragments.update(i as int, given));
            old(self)@.lemma_updated_wf(offer_id, given);
        }
        Ok(next)
    }

    /// Places a bid, on an auction offer if `auction` says so and on another otherwise.
    fn place_bid(
        &mut self,
        buyer: Hash256,
        request: BidRequest,
        psbt: Psbt,
        auction: bool,
        now: u64,
    ) -> (r: Result<Bid, SwapError>)
        requires
            old(self)@.wf(),
        ensures
            final(self)@.wf(),
            final(self)@ == old(self)@.after_bid(buyer, request, psbt@, auction, now),
            match r {
                Ok(b) => old(self)@.bid_verdict(request, auction, now) is Ok && b == old(
                    self,
                )@.new_bid(buyer, request),
                Err(e) => old(self)@.bid_verdict(request, auction, now) == Err::<(), SwapError>(e),
            },
    {
        if request.offer_id >= self.offers.len() as u64 {
            return Err(SwapError::OfferNotFound);
        }
        let i = request.offer_id as usize;
        let o = self.offers[i];
        let expired = match o.state {
            OfferState::Expired => true,
            _ => now >= o.expire_at,
        };
        if expired {
            self.sweep(i, now);
            return Err(SwapError::OfferExpired);
        }
        if !is_open(o.state) {
            return Err(SwapError::OfferNotFound);
        }
        let is_auction = match o.terms {
            Terms::Auction { .. } => true,
            _ => false,
        };
        if is_auction != auction {
            return Err(SwapError::WrongStrategy);
        }
        if request.amount.precision != o.amount.precision {
            return Err(SwapError::PrecisionMismatch);
        }
        if request.amount.value > o.remaining {
            return Err(SwapError::AmountExceedsOffer);
        }
        let bid = Bid {
            id: self.bids.len() as u64,
            offer: request.offer_id,
            buyer,
            amount: request.amount.value,
            seal: request.seal,
            descriptor: request.descriptor,
            change_terminal: request.change_terminal,
            fee: request.fee,
            state: BidState::Created,
        };
        let ghost fragments = psbt_views(self.bid_psbts@);
        let ghost given = psbt@;
        self.offers.set(
            i,
            Offer {
                id: o.id,
                seller: o.seller,
                contract: o.contract,
                amount: o.amount,
                remaining: o.remaining - request.amount.value,
                price: o.price,
                descriptor: o.descriptor,
                change_terminal: o.change_terminal,
                    change_vout: o.change_vout,
                terms: o.terms,
                expire_at: o.expire_at,
                state: OfferState::Matched,
                anchor: o.anchor,
            },
        );
        self.bids.push(bid);
        self.bid_psbts.push(psbt);
        let count = self.bids.len();
        proof {
            assert(psbt_views(self.bid_psbts@) =~= fragments.push(given));
            old(self)@.lemma_with_bid_wf(buyer, request, given);
        }
        Ok(bid)
    }

    /// Places a bid on a P2P or hot-swap offer.
    ///
    /// The bid must come before the offer's time has passed, be written in
    /// the offer's precision, and ask for no more than the offer has left. An
    /// offer found past its time is marked as expired then and there.
    pub fn create_buyer_bid(&mut self, buyer: Hash256, request: BidRequest, psbt: Psbt, now: u64) -> (r:
        Result<Bid, SwapError>)
        requires
            old(self)@.wf(),
        ensures
            final(self)@.wf(),
            final(self)@ == old(self)@.after_bid(buyer, request, psbt@, false, now),
            match r {
                Ok(b) => old(self)@.bid_verdict(request, false, now) is Ok && b == old(
                    self,
                )@.new_bid(buyer, request),
                Err(e) => old(self)@.bid_verdict(request, false, now) == Err::<(), SwapError>(e),
            },
    {
        self.place_bid(buyer, request, psbt, false, now)
    }

    /// Places a bid on an offer of an auction.
    pub fn create_auction_bid(&mut self, buyer: Hash256, request: BidRequest, psbt: Psbt, now: u64) -> (r:
        Result<Bid, SwapError>)
        requires
            old(self)@.wf(),
        ensures
            final(self)@.wf(),
            final(self)@ == old(self)@.after_bid(buyer, request, psbt@, true, now),
            match r {
                Ok(b) => old(self)@.bid_verdict(request, true, now) is Ok && b == old(
                    self,
                )@.new_bid(buyer, request),
                Err(e) => old(self)@.bid_verdict(request, true, now) == Err::<(), SwapError>(e),
            },
    {
        self.place_bid(buyer, request, psbt, true, now)
    }

    /// Merges the fragments of an offer and a bid and builds the consignment.
    fn try_swap(&self, offer: usize, bid: usize, buyer_psbt: &Psbt) -> (r: Result<
        (Psbt, Consignment),
        SwapError,
    >)
        requires
            self@.wf(),
            offer < self@.offers.len(),
            bid < self@.bids.len(),
        ensures
            match r {
                Ok((merged, c)) => self@.swap_verdict(offer as int, bid as int, buyer_psbt@) == Ok::<
                    PsbtData,
                    SwapError,
                >(merged@) && c@ == merged@.consignment(),
                Err(e) => self@.swap_verdict(offer as int, bid as int, buyer_psbt@) == Err::<
                    PsbtData,
                    SwapError,
                >(e),
            },
    {
        let (count, _) = count_active(&self.bids, offer as u64);
        if count > 1 {
            return Err(SwapError::AmbiguousBid);
        }
        match self.offers[offer].terms {
            Terms::P2P { seller_signed } => {
                if !seller_signed {
                    return Err(SwapError::SellerNotSigned);
                }
            },
            _ => {},
        }
        assert(self@.offer_psbts[offer as int] == self.offer_psbts@[offer as int]@);
        let mut merged = match merge(&self.offer_psbts[offer], buyer_psbt) {
            Ok(m) => m,
            Err(e) => {
                return Err(SwapError::Merge(e));
            },
        };
        let b = self.bids[bid];
        let change_vout = self.offers[offer].change_vout;
        let ghost plain = merged@;
        proof {
            lemma_swap_assignments(plain, b, change_vout);
        }
        let consumed = total_spent(&merged.spends);
        let assigned = total_assigned(&merged.assignments);
        if consumed < assigned || consumed - assigned < b.amount as u128 {
            return Err(SwapError::InvalidTransition);
        }
        let rest: u128 = consumed - assigned - b.amount as u128;
        assert(rest == swap_rest(plain, b));
        if rest > u64::MAX as u128 {
            return Err(SwapError::InvalidTransition);
        }
        if rest > 0 && change_vout as usize >= merged.outputs.len() {
            return Err(SwapError::InvalidSeal);
        }
        if total_blinded(&merged.assignments) != 0 {
            return Err(SwapError::AmountMismatch);
        }
        merged.assignments.push(Assignment { target: SealTarget::Blinded(b.seal), amount: b.amount });
        if rest > 0 {
            merged.assignments.push(
                Assignment { target: SealTarget::Output(change_vout), amount: rest as u64 },
            );
        }
        assert(swap_assignments(plain, b, change_vout) == Ok::<Seq<Assignment>, SwapError>(
            merged@.assignments,
        ));
        let c = match merged.build_consignment() {
            Ok(c) => c,
            Err(_) => {
                return Err(SwapError::InvalidTransition);
            },
        };
        Ok((merged, c))
    }

    /// Marks offer and bid as finalizing and notes the anchor.
    fn mark_swapped(&mut self, offer: usize, bid: usize, anchor: Hash256)
        requires
            old(self)@.wf(),
            offer < old(self)@.offers.len(),
            bid < old(self)@.bids.len(),
        ensures
            final(self)@ == (EngineState {
                offers: old(self)@.offers.update(
                    offer as int,
                    Offer {
                        state: OfferState::Finalizing,
                        anchor: Some(anchor),
                        ..old(self)@.offers[offer as int]
                    },
                ),
                bids: old(self)@.bids.update(
                    bid as int,
                    Bid { state: BidState::Finalizing, ..old(self)@.bids[bid as int] },
                ),
                ..old(self)@
            }),
    {
        let o = self.offers[offer];
        let b = self.bids[bid];
        self.offers.set(
            offer,
            Offer {
                id: o.id,
                seller: o.seller,
                contract: o.contract,
                amount: o.amount,
                remaining: o.remaining,
                price: o.price,
                descriptor: o.descriptor,
                change_terminal: o.change_terminal,
                    change_vout: o.change_vout,
                terms: o.terms,
                expire_at: o.expire_at,
                state: OfferState::Finalizing,
                anchor: Some(anchor),
            },
        );
        self.bids.set(
            bid,
            Bid {
                id: b.id,
                offer: b.offer,
                buyer: b.buyer,
                amount: b.amount,
                seal: b.seal,
                descriptor: b.descriptor,
                change_terminal: b.change_terminal,
                fee: b.fee,
                state: BidState::Finalizing,
            },
        );
    }

    /// Merges the seller's and the buyer's fragments into the swap
    /// transaction and builds the consignment that it anchors.
    ///
    /// The caller is the party that completes the swap: the buyer of a P2P
    /// offer, the seller of any other. `swap_psbt` is the buyer's fragment as
    /// it stands now; it takes the place of the one that the bid brought. On
    /// success offer and bid are finalizing. On failure nothing changes,
    /// except that an offer found past its time is marked as expired.
    pub fn create_swap_transfer(
        &mut self,
        caller: Hash256,
        offer_id: u64,
        bid_id: u64,
        swap_psbt: Psbt,
        now: u64,
    ) -> (r: Result<SwapTransfer, SwapError>)
        requires
            old(self)@.wf(),
        ensures
            final(self)@.wf(),
            final(self)@ == old(self)@.after_transfer(caller, offer_id, bid_id, swap_psbt@, now),
            match r {
                Ok(t) => old(self)@.transfer_verdict(caller, offer_id, bid_id, swap_psbt@, now)
                    == Ok::<PsbtData, SwapError>(t.final_psbt@) && t.carries(
                    SwapData { offer_id, bid_id, final_psbt: t.final_psbt@ },
                ),
                Err(e) => old(self)@.transfer_verdict(caller, offer_id, bid_id, swap_psbt@, now)
                    == Err::<PsbtData, SwapError>(e),
            },
    {
        if offer_id >= self.offers.len() as u64 {
            return Err(SwapError::OfferNotFound);
        }
        let i = offer_id as usize;
        let o = self.offers[i];
        if bid_id >= self.bids.len() as u64 {
            return Err(SwapError::BidNotFound);
        }
        let j = bid_id as usize;
        let b = self.bids[j];
        if b.offer != offer_id {
            return Err(SwapError::BidNotFound);
        }
        let completer = match o.terms {
            Terms::P2P { .. } => b.buyer,
            _ => o.seller,
        };
        if caller != completer {
            return Err(SwapError::OfferNotFound);
        }
        let expired = match o.state {
            OfferState::Expired => true,
            _ => is_open(o.state) && now >= o.expire_at,
        };
        if expired {
            self.sweep(i, now);
            return Err(SwapError::OfferExpired);
        }
        match o.state {
            OfferState::Matched => {},
            _ => {
                return Err(SwapError::OfferNotFound);
            },
        }
        match b.state {
            BidState::Created => {},
            _ => {
                return Err(SwapError::BidNotFound);
            },
        }
        let (merged, consignment) = match self.try_swap(i, j, &swap_psbt) {
            Ok(pair) => pair,
            Err(e) => {
                return Err(e);
            },
        };
        let ghost fragments = psbt_views(self.bid_psbts@);
        let ghost given = swap_psbt@;
        let anchor = merged.txid();
        self.mark_swapped(i, j, anchor);
        self.bid_psbts.set(j, swap_psbt);
        proof {
            assert(psbt_views(self.bid_psbts@) =~= fragments.update(j as int, given));
            old(self)@.lemma_swapped_wf(i as int, j as int, given, merged@);
        }
        Ok(SwapTransfer { offer_id, bid_id, final_psbt: merged, consignment })
    }

    /// Takes a report of the chain on the anchor of an offer.
    ///
    /// An offer that is finalizing settles once its anchor is confirmed at the
    /// depth the engine asks for, and at least one block deep; its bid
    /// settles with it. Any other report changes nothing. Returns the state
    /// of the offer afterwards, or nothing if there is no such offer.
    pub fn confirm_settlement(&mut self, offer_id: u64, status: AnchorStatus) -> (r: Option<
        OfferState,
    >)
        requires
            old(self)@.wf(),
        ensures
            final(self)@.wf(),
            offer_id >= old(self)@.offers.len() ==> r is None && final(self)@ == old(self)@,
            offer_id < old(self)@.offers.len() ==> r == Some(
                final(self)@.offers[offer_id as int].state,
            ) && final(self)@ == if old(self)@.settles(offer_id as int, status) {
                old(self)@.settled(offer_id as int)
            } else {
                old(self)@
            },
    {
        if offer_id >= self.offers.len() as u64 {
            return None;
        }
        let i = offer_id as usize;
        let o = self.offers[i];
        let deep_enough = match status {
            AnchorStatus::Confirmed(depth) => depth >= self.min_confirmations && depth >= 1,
            _ => false,
        };
        let finalizing = match o.state {
            OfferState::Finalizing => true,
            _ => false,
        };
        if !(finalizing && deep_enough) {
            return Some(o.state);
        }
        proof {
            old(self)@.lemma_settled_wf(i as int);
        }
        self.set_offer(
            i,
            Offer {
                id: o.id,
                seller: o.seller,
                contract: o.contract,
                amount: o.amount,
                remaining: o.remaining,
                price: o.price,
                descriptor: o.descriptor,
                change_terminal: o.change_terminal,
                    change_vout: o.change_vout,
                terms: o.terms,
                expire_at: o.expire_at,
                state: OfferState::Settled,
                anchor: o.anchor,
            },
        );
        let ghost target = old(self)@.settled(i as int);
        let n = self.bids.len();
        let mut j: usize = 0;
        while j < n
            invariant
                j <= n,
                n == self.bids@.len(),
                n == old(self)@.bids.len(),
                i == offer_id,
                target == old(self)@.settled(i as int),
                self@.offers == target.offers,
                self@.offer_psbts == target.offer_psbts,
                self@.bid_psbts == target.bid_psbts,
                self@.bundles == old(self)@.bundles,
                self@.min_confirmations == target.min_confirmations,
                forall|k: int| 0 <= k < j ==> #[trigger] self@.bids[k] == target.bids[k],
                forall|k: int| j <= k < n ==> #[trigger] self@.bids[k] == old(self)@.bids[k],
            decreases n - j,
        {
            let b = self.bids[j];
            let closing = match b.state {
                BidState::Finalizing => b.offer == offer_id,
                _ => false,
            };
            if closing {
                self.set_bid(
                    j,
                    Bid {
                        id: b.id,
                        offer: b.offer,
                        buyer: b.buyer,
                        amount: b.amount,
                seal: b.seal,
                        descriptor: b.descriptor,
                        change_terminal: b.change_terminal,
                        fee: b.fee,
                        state: BidState::Settled,
                    },
                );
            }
            j += 1;
        }
        assert(self@.bids =~= target.bids);
        match o.terms {
            Terms::Auction { bundle } => {
                if bundle < self.bundles.len() as u64 {
                    let b = self.bundles[bundle as usize];
                    let closed = match b.state {
                        BundleState::Closed => true,
                        _ => false,
                    };
                    if closed && !any_in_flight(&self.offers, bundle) {
                        self.bundles.set(
                            bundle as usize,
                            Bundle { id: b.id, seller: b.seller, state: BundleState::Finalized },
                        );
                    }
                }
            },
            _ => {},
        }
        Some(OfferState::Settled)
    }

    /// A copy of the engine.
    fn duplicate(&self) -> (r: SwapEngine)
        ensures
            r@ == self@,
    {
        let mut offers: Vec<Offer> = Vec::new();
        let mut i: usize = 0;
        while i < self.offers.len()
            invariant
                i <= self.offers.len(),
                offers@ == self.offers@.subrange(0, i as int),
            decreases self.offers.len() - i,
        {
            offers.push(self.offers[i]);
            assert(offers@ =~= self.offers@.subrange(0, i as int + 1));
            i += 1;
        }
        assert(self.offers@.subrange(0, i as int) =~= self.offers@);
        let mut bids: Vec<Bid> = Vec::new();
        let mut j: usize = 0;
        while j < self.bids.len()
            invariant
                j <= self.bids.len(),
                bids@ == self.bids@.subrange(0, j as int),
            decreases self.bids.len() - j,
        {
            bids.push(self.bids[j]);
            assert(bids@ =~= self.bids@.subrange(0, j as int + 1));
            j += 1;
        }
        assert(self.bids@.subrange(0, j as int) =~= self.bids@);
        let mut bundles: Vec<Bundle> = Vec::new();
        let mut b: usize = 0;
        while b < self.bundles.len()
            invariant
                b <= self.bundles.len(),
                bundles@ == self.bundles@.subrange(0, b as int),
            decreases self.bundles.len() - b,
        {
            bundles.push(self.bundles[b]);
            assert(bundles@ =~= self.bundles@.subrange(0, b as int + 1));
            b += 1;
        }
        assert(self.bundles@.subrange(0, b as int) =~= self.bundles@);
        let mut offer_psbts: Vec<Psbt> = Vec::new();
        let mut m: usize = 0;
        while m < self.offer_psbts.len()
            invariant
                m <= self.offer_psbts.len(),
                offer_psbts@.len() == m,
                psbt_views(offer_psbts@) == psbt_views(self.offer_psbts@.subrange(0, m as int)),
            decreases self.offer_psbts.len() - m,
        {
            let ghost before = psbt_views(offer_psbts@);
            let copy = copy_psbt(&self.offer_psbts[m]);
            offer_psbts.push(copy);
            assert(psbt_views(offer_psbts@) =~= psbt_views(
                self.offer_psbts@.subrange(0, m as int + 1),
            )) by {
                assert forall|k: int| 0 <= k < m implies psbt_views(offer_psbts@)[k] == psbt_views(
                    self.offer_psbts@.subrange(0, m as int + 1),
                )[k] by {
                    assert(psbt_views(offer_psbts@)[k] == before[k]);
                }
            }
            m += 1;
        }
        assert(self.offer_psbts@.subrange(0, m as int) =~= self.offer_psbts@);
        let mut bid_psbts: Vec<Psbt> = Vec::new();
        let mut n: usize = 0;
        while n < self.bid_psbts.len()
            invariant
                n <= self.bid_psbts.len(),
                bid_psbts@.len() == n,
                psbt_views(bid_psbts@) == psbt_views(self.bid_psbts@.subrange(0, n as int)),
            decreases self.bid_psbts.len() - n,
        {
            let ghost before = psbt_views(bid_psbts@);
            let copy = copy_psbt(&self.bid_psbts[n]);
            bid_psbts.push(copy);
            assert(psbt_views(bid_psbts@) =~= psbt_views(self.bid_psbts@.subrange(0, n as int + 1)))
                by {
                assert forall|k: int| 0 <= k < n implies psbt_views(bid_psbts@)[k] == psbt_views(
                    self.bid_psbts@.subrange(0, n as int + 1),
                )[k] by {
                    assert(psbt_views(bid_psbts@)[k] == before[k]);
                }
            }
            n += 1;
        }
        assert(self.bid_psbts@.subrange(0, n as int) =~= self.bid_psbts@);
        SwapEngine {
            offers,
            offer_psbts,
            bids,
            bid_psbts,
            bundles,
            min_confirmations: self.min_confirmations,
        }
    }

    /// Closes one offer of an auction.
    fn close_member(&mut self, k: usize, now: u64) -> (r: Result<Option<SwapTransfer>, SwapError>)
        requires
            old(self)@.wf(),
            k < old(self)@.offers.len(),
        ensures
            final(self)@.wf(),
            final(self)@ == old(self)@.closed(k as int, now),
            match r {
                Ok(None) => old(self)@.close_verdict(k as int, now) == Ok::<
                    Option<SwapData>,
                    SwapError,
                >(None),
                Ok(Some(t)) => old(self)@.close_verdict(k as int, now) matches Ok(Some(swap))
                    && t.carries(swap),
                Err(e) => old(self)@.close_verdict(k as int, now) == Err::<
                    Option<SwapData>,
                    SwapError,
                >(e),
            },
    {
        proof {
            old(self)@.lemma_closed_wf(k as int, now);
            lemma_active_bid(self@.bids, k as u64);
        }
        let o = self.offers[k];
        if !is_open(o.state) {
            return Ok(None);
        }
        if now >= o.expire_at {
            self.sweep(k, now);
            return Ok(None);
        }
        let (_, last) = count_active(&self.bids, k as u64);
        let j = match last {
            Some(j) => j,
            None => {
                self.set_offer(
                    k,
                    Offer {
                        id: o.id,
                        seller: o.seller,
                        contract: o.contract,
                        amount: o.amount,
                        remaining: o.remaining,
                        price: o.price,
                        descriptor: o.descriptor,
                        change_terminal: o.change_terminal,
                    change_vout: o.change_vout,
                        terms: o.terms,
                        expire_at: o.expire_at,
                        state: OfferState::Cancelled,
                        anchor: o.anchor,
                    },
                );
                return Ok(None);
            },
        };
        assert(self@.bid_psbts[j as int] == self.bid_psbts@[j as int]@);
        let (merged, consignment) = match self.try_swap(k, j, &self.bid_psbts[j]) {
            Ok(pair) => pair,
            Err(e) => {
                return Err(e);
            },
        };
        let anchor = merged.txid();
        self.mark_swapped(k, j, anchor);
        proof {
            let s = old(self)@;
            assert(s.bid_psbts.update(j as int, s.bid_psbts[j as int]) =~= s.bid_psbts);
        }
        Ok(Some(SwapTransfer { offer_id: k as u64, bid_id: j as u64, final_psbt: merged, consignment }))
    }

    /// Creates the offers of an auction, all of them or none, under one new bundle.
    ///
    /// Each offer must be one that its seller may make; the first that is
    /// not gives the error. Signing waits until the auction is finished.
    pub fn create_auction_offers(&mut self, seller: &Watcher, items: Vec<AuctionItem>) -> (r: Result<
        AuctionBundle,
        SwapError,
    >)
        requires
            old(self)@.wf(),
            seller@.wf(),
        ensures
            final(self)@.wf(),
            match r {
                Ok(b) => auction_verdict(seller@, item_requests(items@)) is Ok && b.bundle_id
                    == old(self)@.bundles.len() && final(self)@ == old(self)@.bundled(
                    seller@.identity,
                ).auctioned(
                    seller@.identity,
                    item_requests(items@),
                    item_psbts(items@),
                    b.bundle_id,
                ) && b.offers@ == final(self)@.offers.subrange(
                    old(self)@.offers.len() as int,
                    final(self)@.offers.len() as int,
                ) && b.offers@.len() == items@.len(),
                Err(e) => auction_verdict(seller@, item_requests(items@)) == Err::<(), SwapError>(e)
                    && final(self)@ == old(self)@,
            },
    {
        let ghost requests = item_requests(items@);
        let ghost psbts = item_psbts(items@);
        let mut k: usize = 0;
        while k < items.len()
            invariant
                k <= items.len(),
                seller@.wf(),
                self@ == old(self)@,
                old(self)@.wf(),
                requests == item_requests(items@),
                auction_verdict(seller@, requests.subrange(0, k as int)) is Ok,
            decreases items.len() - k,
        {
            proof {
                assert(requests.subrange(0, k as int + 1).drop_last() =~= requests.subrange(
                    0,
                    k as int,
                ));
                assert(requests.subrange(0, k as int + 1).last() == items@[k as int].request);
            }
            match check_offer(seller, &items[k].request, true) {
                Ok(()) => {},
                Err(e) => {
                    proof {
                        lemma_auction_fails_on(seller@, requests, k as int);
                    }
                    return Err(e);
                },
            }
            k += 1;
        }
        assert(requests.subrange(0, k as int) =~= requests);
        let bundle_id = self.bundles.len() as u64;
        let seller_id = seller.identity();
        self.bundles.push(Bundle { id: bundle_id, seller: seller_id, state: BundleState::Open });
        let bundle_count = self.bundles.len();
        let ghost start = self@;
        assert(start == old(self)@.bundled(seller_id));
        assert(start.wf());
        let mut queue = items;
        let mut made: Vec<Offer> = Vec::new();
        let keys: Vec<u64> = Vec::new();
        assert(requests.subrange(0, 0) =~= Seq::<OfferRequest>::empty());
        while queue.len() > 0
            invariant
                requests == item_requests(items@),
                psbts == item_psbts(items@),
                keys@ == Seq::<u64>::empty(),
                start.wf(),
                made@.len() + queue@.len() == items@.len(),
                forall|n: int|
                    0 <= n < queue@.len() ==> (#[trigger] queue@[n]).request == requests[made@.len()
                        + n] && queue@[n].psbt@ == psbts[made@.len() + n],
                self@ == start.auctioned(
                    seller_id,
                    requests.subrange(0, made@.len() as int),
                    psbts.subrange(0, made@.len() as int),
                    bundle_id,
                ),
                self@.wf(),
                self@.offers.len() == start.offers.len() + made@.len(),
                made@ == self@.offers.subrange(start.offers.len() as int, self@.offers.len() as int),
            decreases queue.len(),
        {
            let ghost n = made@.len() as int;
            let ghost waiting = queue@;
            let ghost before = self@;
            let item = queue.remove(0);
            proof {
                assert(item == waiting[0]);
                assert forall|m: int| 0 <= m < queue@.len() implies (#[trigger] queue@[m]).request
                    == requests[n + 1 + m] && queue@[m].psbt@ == psbts[n + 1 + m] by {
                    assert(queue@[m] == waiting[m + 1]);
                }
                assert(requests.subrange(0, n + 1).drop_last() =~= requests.subrange(0, n));
                assert(psbts.subrange(0, n + 1).drop_last() =~= psbts.subrange(0, n));
            }
            let o = self.push_offer(seller_id, item.request, item.psbt, &keys, bundle_id);
            made.push(o);
            proof {
                assert(made@ =~= self@.offers.subrange(
                    start.offers.len() as int,
                    self@.offers.len() as int,
                ));
            }
        }
        proof {
            assert(requests.subrange(0, requests.len() as int) =~= requests);
            assert(psbts.subrange(0, psbts.len() as int) =~= psbts);
        }
        Ok(AuctionBundle { bundle_id, offers: made })
    }

    /// Finishes an auction: closes bidding on the bundle and closes each of
    /// its offers, all of them or none.
    ///
    /// An offer with one standing bid goes through the swap transfer, with
    /// the fragment that the bid brought. An offer without a bid is
    /// cancelled; one found past its time expires. An offer with several
    /// standing bids fails the whole operation with `AmbiguousBid`, as does
    /// any transfer that fails, and then nothing changes.
    pub fn finish_auction_offers(&mut self, caller: Hash256, bundle_id: u64, now: u64) -> (r: Result<
        Vec<SwapTransfer>,
        SwapError,
    >)
        requires
            old(self)@.wf(),
        ensures
            final(self)@.wf(),
            final(self)@ == old(self)@.finished(caller, bundle_id, now),
            match r {
                Ok(transfers) => old(self)@.finish_verdict(caller, bundle_id, now) matches Ok(swaps)
                    && transfers@.len() == swaps.len() && forall|k: int|
                    0 <= k < transfers@.len() ==> (#[trigger] transfers@[k]).carries(swaps[k]),
                Err(e) => old(self)@.finish_verdict(caller, bundle_id, now) == Err::<
                    Seq<SwapData>,
                    SwapError,
                >(e),
            },
    {
        proof {
            old(self)@.lemma_finished_wf(caller, bundle_id, now);
        }
        if bundle_id >= self.bundles.len() as u64 {
            return Err(SwapError::BundleNotFound);
        }
        let b = self.bundles[bundle_id as usize];
        let open = match b.state {
            BundleState::Open => true,
            _ => false,
        };
        if b.seller != caller || !open {
            return Err(SwapError::BundleNotFound);
        }
        let mut scratch = self.duplicate();
        let mut transfers: Vec<SwapTransfer> = Vec::new();
        let n = scratch.offers.len();
        let mut k: usize = 0;
        while k < n
            invariant
                k <= n,
                n == old(self)@.offers.len(),
                self@ == old(self)@,
                old(self)@.wf(),
                old(self)@.bundle_open(caller, bundle_id),
                scratch@.bundles == old(self)@.bundles,
                scratch.bundles@ == scratch@.bundles,
                old(self)@.finish_upto(bundle_id, now, k as nat) matches Ok((s, swaps)) && s
                    == scratch@ && transfers@.len() == swaps.len() && forall|m: int|
                    0 <= m < transfers@.len() ==> (#[trigger] transfers@[m]).carries(swaps[m]),
                scratch@.wf(),
                scratch@.offers.len() == n,
            decreases n - k,
        {
            proof {
                old(self)@.lemma_finish_upto_wf(bundle_id, now, (k + 1) as nat);
            }
            let is_member = match scratch.offers[k].terms {
                Terms::Auction { bundle } => bundle == bundle_id,
                _ => false,
            };
            if is_member {
                let ghost before = transfers@;
                match scratch.close_member(k, now) {
                    Err(e) => {
                        proof {
                            old(self)@.lemma_finish_failure_stays(bundle_id, now, (k + 1) as nat, n as nat);
                        }
                        return Err(e);
                    },
                    Ok(None) => {},
                    Ok(Some(t)) => {
                        transfers.push(t);
                        proof {
                            assert forall|m: int| 0 <= m < before.len() implies transfers@[m]
                                == before[m] by {}
                        }
                    },
                }
            }
            k += 1;
        }
        let state = if any_in_flight(&scratch.offers, bundle_id) {
            BundleState::Closed
        } else {
            BundleState::Finalized
        };
        let done = Bundle { id: b.id, seller: b.seller, state };
        let ghost closed = scratch@;
        scratch.bundles.set(bundle_id as usize, done);
        assert(scratch@ == closed.with_bundle_done(bundle_id));
        *self = scratch;
        Ok(transfers)
    }
}

/// If the request at position `k` may not be offered while all before it
/// may, the auction fails with the error of that request.
proof fn lemma_auction_fails_on(ledger: crate::ledger::LedgerState, requests: Seq<OfferRequest>, k: int)
    requires
        0 <= k < requests.len(),
        auction_verdict(ledger, requests.subrange(0, k)) is Ok,
        offer_verdict(ledger, requests[k], true) is Err,
    ensures
        auction_verdict(ledger, requests) == offer_verdict(ledger, requests[k], true),
    decreases requests.len() - k,
{
    assert(requests.subrange(0, k + 1).drop_last() =~= requests.subrange(0, k));
    assert(requests.subrange(0, k + 1).last() == requests[k]);
    lemma_auction_failure_stays(ledger, requests, k + 1);
}

/// Once a prefix of the requests fails, every longer prefix fails the same way.
proof fn lemma_auction_failure_stays(
    ledger: crate::ledger::LedgerState,
    requests: Seq<OfferRequest>,
    upto: int,
)
    requires
        0 <= upto <= requests.len(),
        auction_verdict(ledger, requests.subrange(0, upto)) is Err,
    ensures
        auction_verdict(ledger, requests) == auction_verdict(ledger, requests.subrange(0, upto)),
    decreases requests.len() - upto,
{
    if upto == requests.len() {
        assert(requests.subrange(0, upto) =~= requests);
    } else {
        assert(requests.subrange(0, upto + 1).drop_last() =~= requests.subrange(0, upto));
        lemma_auction_failure_stays(ledger, requests, upto + 1);
    }
}

} // verus!
