use bitmask_core::amount::ContractAmount;
use bitmask_core::consignment::{Assignment, SealTarget, Spend};
use bitmask_core::engine::{AuctionItem, SwapEngine, SwapTransfer};
use bitmask_core::ids::{Hash256, OutPoint};
use bitmask_core::ledger::{AnchorStatus, Contract, Interface};
use bitmask_core::psbt::{
    compose, copy_psbt, AssetUtxo, MergeError, Psbt, PsbtInput, PsbtOutput, Utxo, UtxoFilter,
};
use bitmask_core::seal::Seal;
use bitmask_core::signing::{finalize, publish_outcome, sign, RelayResponse};
use bitmask_core::swap::{
    BidRequest, BidState, BundleState, OfferRequest, OfferState, SwapError, SwapStrategy, Terminal,
    Terms,
};
use bitmask_core::watcher::{AnchorObservation, Watcher};

const SELLER: u64 = 100;
const BUYER: u64 = 200;
const RIVAL: u64 = 300;
const SELLER_ASSETS: u64 = 20;
const SELLER_COINS: u64 = 21;
const BUYER_COINS: u64 = 1;
const NOW: u64 = 1_700_000_000;
const EXPIRE_AT: u64 = NOW + 300;

fn id(n: u64) -> Hash256 {
    Hash256::from_u64(n)
}

fn out(tx: u64, vout: u32) -> OutPoint {
    OutPoint::new(id(tx), vout)
}

fn contract(n: u64, interface: Interface, precision: u8, supply: u64) -> Contract {
    Contract {
        id: id(n),
        interface,
        precision,
        supply,
        ticker: "TKN".to_string(),
        name: "Token".to_string(),
        description: "A token for tests".to_string(),
    }
}

/// The seller's fragment: the output that carries the allocation, returned whole.
fn seller_fragment(contract: u64, carrier: u64, amount: u64) -> Psbt {
    compose(
        id(contract),
        &vec![AssetUtxo {
            utxo: Utxo { outpoint: out(carrier, 0), value: 1_000, descriptor: SELLER_ASSETS },
            amount,
        }],
        &vec![],
        &vec![],
        &vec![PsbtOutput { value: 1_000, descriptor: SELLER_ASSETS }],
        0,
        UtxoFilter::Any,
        SELLER_ASSETS,
    )
    .unwrap()
}

/// The buyer's fragment: the payment to the seller, funded from one output.
fn buyer_fragment(contract: u64, coin: u64, price: u64) -> Psbt {
    compose(
        id(contract),
        &vec![],
        &vec![Utxo { outpoint: out(coin, 0), value: 10_000_000, descriptor: BUYER_COINS }],
        &vec![],
        &vec![PsbtOutput { value: price, descriptor: SELLER_COINS }],
        1_000,
        UtxoFilter::with_amount_equal_than(10_000_000),
        BUYER_COINS,
    )
    .unwrap()
}

fn offer_request(contract: u64, amount: ContractAmount, price: u64, strategy: SwapStrategy) -> OfferRequest {
    OfferRequest {
        contract: id(contract),
        amount,
        price,
        descriptor: SELLER_ASSETS,
        change_terminal: Terminal { branch: 20, index: 1 },
        change_vout: 0,
        strategy,
        expire_at: EXPIRE_AT,
    }
}

fn bid_request(offer_id: u64, amount: ContractAmount, seal: Seal) -> BidRequest {
    BidRequest {
        offer_id,
        amount,
        seal,
        descriptor: BUYER_COINS,
        change_terminal: Terminal { branch: 1, index: 0 },
        fee: 1_000,
    }
}

/// Signs what is left to sign, broadcasts, and lets both parties accept once
/// the anchor has one confirmation.
fn settle(
    engine: &mut SwapEngine,
    transfer: &SwapTransfer,
    keys: &Vec<u64>,
    seller: &mut Watcher,
    buyer: &mut Watcher,
) {
    let signed = sign(copy_psbt(&transfer.final_psbt), keys);
    assert!(signed.sign);
    let tx = finalize(&signed.psbt).unwrap();
    let txid = publish_outcome(&tx, Some(RelayResponse::Accepted)).unwrap();
    assert_eq!(txid, transfer.consignment.anchor);

    for w in [&mut *buyer, &mut *seller] {
        let early = w.accept_transfer(transfer.consignment.clone(), AnchorStatus::Unknown);
        assert!(!early.valid);
    }
    // Mine some blocks.
    let chain = vec![AnchorObservation { txid, status: AnchorStatus::Confirmed(1) }];
    for w in [&mut *buyer, &mut *seller] {
        let list = w.verify_transfers(&chain);
        let status = list
            .into_iter()
            .find(|x| x.consignment_id == transfer.consignment.id)
            .unwrap();
        assert!(status.is_accept);
    }
    assert_eq!(
        engine.confirm_settlement(transfer.offer_id, AnchorStatus::Confirmed(1)),
        Some(OfferState::Settled)
    );
}

struct Market {
    engine: SwapEngine,
    seller: Watcher,
    buyer: Watcher,
}

/// A seller who issued contract 1 with `supply` on output 5:0, and a buyer who imported it.
fn market(interface: Interface, precision: u8, supply: u64) -> Market {
    let mut seller = Watcher::new(id(SELLER));
    let mut buyer = Watcher::new(id(BUYER));
    seller.issue(contract(1, interface, precision, supply), out(5, 0)).unwrap();
    assert!(buyer.import_contract(contract(1, interface, precision, supply)).is_ok());
    Market { engine: SwapEngine::new(1), seller, buyer }
}

#[test]
fn create_hotswap_swap() {
    let supply = ContractAmount::with(5, 0, 2).unwrap().to_value();
    let precision = 2;
    let Market { mut engine, mut seller, mut buyer } = market(Interface::Rgb20, precision, supply);

    let contract_amount = supply - 1;
    let bitcoin_price: u64 = 100_000;
    let asset_amount = ContractAmount::new(contract_amount, precision).to_string();
    assert_eq!(asset_amount, "4.99");
    let request = offer_request(
        1,
        ContractAmount::parse(&asset_amount, precision).unwrap(),
        bitcoin_price,
        SwapStrategy::HotSwap,
    );
    let seller_swap_resp =
        engine.create_seller_offer(&seller, request, seller_fragment(1, 5, supply), &vec![]);
    assert!(seller_swap_resp.is_ok());
    let offer = seller_swap_resp.unwrap();
    assert_eq!(offer.id, 0);
    assert_eq!(offer.seller, id(SELLER));
    assert_eq!(offer.terms, Terms::HotSwap);
    assert_eq!(offer.state, OfferState::Open);
    assert_eq!(offer.remaining, 499);

    let bid_amount = "4.0";
    let seal = buyer.blind_utxo(out(8, 0), 7).conceal;
    let buyer_swap_resp = engine.create_buyer_bid(
        id(BUYER),
        bid_request(offer.id, ContractAmount::parse(bid_amount, precision).unwrap(), seal),
        buyer_fragment(1, 12, bitcoin_price),
        NOW,
    );
    assert!(buyer_swap_resp.is_ok());
    let bid = buyer_swap_resp.unwrap();
    assert_eq!(bid.amount, 400);
    assert_eq!(engine.offer(0).unwrap().state, OfferState::Matched);
    assert_eq!(engine.offer(0).unwrap().remaining, 99);

    let buyer_psbt_resp = sign(buyer_fragment(1, 12, bitcoin_price), &vec![BUYER_COINS]);
    assert!(buyer_psbt_resp.sign);

    // To the buyer, the seller's side of a hot swap is not there.
    assert_eq!(
        engine.create_swap_transfer(id(BUYER), 0, bid.id, copy_psbt(&buyer_psbt_resp.psbt), NOW),
        Err(SwapError::OfferNotFound)
    );
    let final_swap_resp =
        engine.create_swap_transfer(id(SELLER), offer.id, bid.id, buyer_psbt_resp.psbt, NOW);
    assert!(final_swap_resp.is_ok());
    let transfer = final_swap_resp.unwrap();
    assert_eq!(
        transfer.final_psbt.assignments,
        vec![
            Assignment { target: SealTarget::Blinded(seal), amount: 400 },
            Assignment { target: SealTarget::Output(0), amount: 100 },
        ]
    );
    assert_eq!(transfer.final_psbt.spends, vec![Spend { outpoint: out(5, 0), amount: 500 }]);
    assert_eq!(transfer.final_psbt.inputs.len(), 2);
    assert!(!transfer.final_psbt.inputs[0].signed);
    assert!(transfer.final_psbt.inputs[1].signed);
    assert_eq!(transfer.consignment.anchor, transfer.final_psbt.txid());
    assert_eq!(engine.offer(0).unwrap().state, OfferState::Finalizing);
    assert_eq!(engine.offer(0).unwrap().anchor, Some(transfer.consignment.anchor));
    assert_eq!(engine.bid(0).unwrap().state, BidState::Finalizing);

    settle(&mut engine, &transfer, &vec![SELLER_COINS, SELLER_ASSETS], &mut seller, &mut buyer);
    assert_eq!(engine.bid(0).unwrap().state, BidState::Settled);

    let resp = buyer.balance_amount(id(1));
    assert!(resp.is_ok());
    assert_eq!("4.00", resp.unwrap().to_string());
    assert_eq!(buyer.balance(id(1)), Ok(400));
    let resp = seller.balance_amount(id(1));
    assert!(resp.is_ok());
    assert_eq!("1.00", resp.unwrap().to_string());
    assert_eq!(seller.balance(id(1)), Ok(100));

    // A settled offer takes no more bids.
    let late = engine.create_buyer_bid(
        id(RIVAL),
        bid_request(0, ContractAmount::new(1, 2), seal),
        buyer_fragment(1, 13, bitcoin_price),
        NOW,
    );
    assert_eq!(late, Err(SwapError::OfferNotFound));
    assert_eq!(engine.offer(0).unwrap().state, OfferState::Settled);
    assert!(engine.bid(1).is_none());
}

#[test]
fn create_hotswap_swap_for_uda() {
    let Market { mut engine, mut seller, mut buyer } = market(Interface::Rgb21, 0, 1);
    let bitcoin_price: u64 = 100_000;
    let asset_amount = ContractAmount::new(1, 0).to_string();
    assert_eq!(asset_amount, "1");
    let offer = engine
        .create_seller_offer(
            &seller,
            offer_request(
                1,
                ContractAmount::parse(&asset_amount, 0).unwrap(),
                bitcoin_price,
                SwapStrategy::HotSwap,
            ),
            seller_fragment(1, 5, 1),
            &vec![],
        )
        .unwrap();
    let seal = buyer.blind_utxo(out(8, 0), 7).conceal;
    let bid = engine
        .create_buyer_bid(
            id(BUYER),
            bid_request(offer.id, ContractAmount::parse("1", 0).unwrap(), seal),
            buyer_fragment(1, 12, bitcoin_price),
            NOW,
        )
        .unwrap();
    let signed = sign(buyer_fragment(1, 12, bitcoin_price), &vec![BUYER_COINS]);
    let transfer = engine
        .create_swap_transfer(id(SELLER), offer.id, bid.id, signed.psbt, NOW)
        .unwrap();
    // All of it is sold: nothing returns to the seller.
    assert_eq!(
        transfer.final_psbt.assignments,
        vec![Assignment { target: SealTarget::Blinded(seal), amount: 1 }]
    );
    settle(&mut engine, &transfer, &vec![SELLER_ASSETS], &mut seller, &mut buyer);
    assert_eq!(buyer.balance_amount(id(1)).unwrap().to_string(), "1");
    assert_eq!(seller.balance(id(1)), Ok(0));
}

#[test]
fn create_p2p_swap() {
    let supply = ContractAmount::with(5, 0, 2).unwrap().to_value();
    let precision = 2;
    let Market { mut engine, mut seller, mut buyer } = market(Interface::Rgb20, precision, supply);

    let contract_amount = supply - 1;
    let bitcoin_price: u64 = 100_001;
    let request = offer_request(
        1,
        ContractAmount::new(contract_amount, precision),
        bitcoin_price,
        SwapStrategy::P2P,
    );
    let seller_swap_resp =
        engine.create_seller_offer(&seller, request, seller_fragment(1, 5, supply), &vec![]);
    assert!(seller_swap_resp.is_ok());
    let offer = seller_swap_resp.unwrap();
    assert_eq!(offer.terms, Terms::P2P { seller_signed: false });
    assert_eq!(offer.state, OfferState::Open);

    // Sign the seller's fragment elsewhere and attach it.
    let seller_psbt = engine.offer_psbt(offer.id).unwrap();
    let seller_psbt_resp = sign(seller_psbt, &vec![SELLER_COINS, 22, SELLER_ASSETS]);
    assert!(seller_psbt_resp.sign);
    let update_offer_resp = engine.update_seller_offer(id(SELLER), offer.id, seller_psbt_resp.psbt);
    assert!(update_offer_resp.is_ok());
    let offer = update_offer_resp.unwrap();
    assert_eq!(offer.terms, Terms::P2P { seller_signed: true });
    assert_eq!(offer.state, OfferState::SellerSigned);

    let bid_amount = "4.0";
    let seal = buyer.blind_utxo(out(8, 0), 7).conceal;
    let buyer_swap_resp = engine.create_buyer_bid(
        id(BUYER),
        bid_request(offer.id, ContractAmount::parse(bid_amount, precision).unwrap(), seal),
        buyer_fragment(1, 12, bitcoin_price),
        NOW,
    );
    assert!(buyer_swap_resp.is_ok());
    let bid = buyer_swap_resp.unwrap();

    // The buyer completes a P2P swap; to the seller there is nothing to complete.
    assert_eq!(
        engine.create_swap_transfer(id(SELLER), offer.id, bid.id, buyer_fragment(1, 12, bitcoin_price), NOW),
        Err(SwapError::OfferNotFound)
    );
    let final_swap_resp = engine.create_swap_transfer(
        id(BUYER),
        offer.id,
        bid.id,
        buyer_fragment(1, 12, bitcoin_price),
        NOW,
    );
    assert!(final_swap_resp.is_ok());
    let transfer = final_swap_resp.unwrap();
    assert!(transfer.final_psbt.inputs[0].signed);
    assert!(!transfer.final_psbt.inputs[1].signed);
    assert_eq!(transfer.final_psbt.outputs[1], PsbtOutput { value: 100_001, descriptor: SELLER_COINS });

    settle(&mut engine, &transfer, &vec![BUYER_COINS, 2], &mut seller, &mut buyer);

    assert_eq!(buyer.balance_amount(id(1)).unwrap().to_string(), "4.00");
    assert_eq!(seller.balance_amount(id(1)).unwrap().to_string(), "1.00");
}

/// The seller issues `issued` contracts with `supply` whole units each and
/// puts one unit of the first two up for auction; the buyer bids on both.
fn run_auction(interface: Interface, precision: u8, issued: u64, supply: u64) {
    let mut seller = Watcher::new(id(SELLER));
    let mut buyer = Watcher::new(id(BUYER));
    let amount = ContractAmount::with(1, 0, precision).unwrap();
    let unit = amount.to_value();
    let whole = ContractAmount::with(supply, 0, precision).unwrap().to_value();
    for n in 1..=issued {
        seller.issue(contract(n, interface, precision, whole), out(4 + n, 0)).unwrap();
        let buyer_import_resp = buyer.import_contract(contract(n, interface, precision, whole));
        assert!(buyer_import_resp.is_ok());
    }
    let mut engine = SwapEngine::new(1);
    let bitcoin_price: u64 = 1_000;
    let contract_amount = amount.to_string();

    let mut items = Vec::new();
    for n in [1, 2] {
        items.push(AuctionItem {
            request: offer_request(
                n,
                ContractAmount::parse(&contract_amount, precision).unwrap(),
                bitcoin_price,
                SwapStrategy::Auction,
            ),
            psbt: seller_fragment(n, 4 + n, whole),
        });
    }
    let resp = engine.create_auction_offers(&seller, items);
    assert!(resp.is_ok());
    let bundle = resp.unwrap();
    assert_eq!(bundle.bundle_id, 0);
    assert_eq!(bundle.offers.len(), 2);
    assert_eq!(bundle.offers[0].terms, Terms::Auction { bundle: 0 });
    assert_eq!(bundle.offers[1].id, 1);
    assert_eq!(engine.bundle(0).unwrap().state, BundleState::Open);

    let mut seals = Vec::new();
    for n in [1u64, 2] {
        let seal = buyer.blind_utxo(out(8, n as u32), 7 + n).conceal;
        seals.push(seal);
        let fragment = sign(buyer_fragment(n, 11 + n, bitcoin_price), &vec![BUYER_COINS]);
        assert!(fragment.sign);
        let resp = engine.create_auction_bid(
            id(BUYER),
            bid_request(n - 1, amount, seal),
            fragment.psbt,
            NOW,
        );
        assert!(resp.is_ok());
    }
    assert_eq!(
        engine.finish_auction_offers(id(BUYER), 0, NOW),
        Err(SwapError::BundleNotFound)
    );
    let resp = engine.finish_auction_offers(id(SELLER), 0, NOW);
    assert!(resp.is_ok());
    let transfers = resp.unwrap();
    assert_eq!(transfers.len(), 2);
    // Bidding is closed; the bundle is finalized with the last of its swaps.
    assert_eq!(engine.bundle(0).unwrap().state, BundleState::Closed);
    for (n, transfer) in transfers.iter().enumerate() {
        assert_eq!(engine.bundle(0).unwrap().state, BundleState::Closed);
        assert_eq!(transfer.offer_id, n as u64);
        assert_eq!(transfer.bid_id, n as u64);
        let mut expected = vec![Assignment { target: SealTarget::Blinded(seals[n]), amount: unit }];
        if whole > unit {
            expected.push(Assignment { target: SealTarget::Output(0), amount: whole - unit });
        }
        assert_eq!(transfer.final_psbt.assignments, expected);
        assert_eq!(engine.offer(n as u64).unwrap().state, OfferState::Finalizing);
        settle(&mut engine, transfer, &vec![SELLER_ASSETS], &mut seller, &mut buyer);
    }
    assert_eq!(engine.bundle(0).unwrap().state, BundleState::Finalized);
    assert_eq!(
        engine.finish_auction_offers(id(SELLER), 0, NOW),
        Err(SwapError::BundleNotFound)
    );

    let mut total = 0;
    for n in [1, 2] {
        let resp = buyer.get_contract(id(n));
        assert!(resp.is_ok());
        assert_eq!(unit, resp.unwrap().balance);
        assert_eq!("1", buyer.balance_amount(id(n)).unwrap().whole_units().to_string());
        total += buyer.balance_amount(id(n)).unwrap().whole_units();

        let resp = seller.get_contract(id(n));
        assert!(resp.is_ok());
        assert_eq!(whole - unit, resp.unwrap().balance);
        assert_eq!(supply - 1, seller.balance_amount(id(n)).unwrap().whole_units());
    }
    assert_eq!(total, 2);
    // What was not put up for auction is as it was issued.
    for n in 3..=issued {
        assert_eq!(seller.balance(id(n)), Ok(whole));
        assert_eq!(buyer.balance(id(n)), Ok(0));
    }
}

#[test]
fn create_auction_swap() {
    // Three contracts of 2.00 each; 1.00 of the first two is sold, 1.00 is left.
    assert_eq!(ContractAmount::with(2, 0, 2).unwrap().to_value(), 200);
    run_auction(Interface::Rgb20, 2, 3, 2);
    assert_eq!(ContractAmount::parse("1.00", 2), Ok(ContractAmount::new(100, 2)));
}

#[test]
fn auction_sells_all_that_was_issued() {
    // Two contracts of 1.00 each, both sold whole: the seller is left with nothing.
    run_auction(Interface::Rgb20, 2, 2, 1);
}

#[test]
fn create_collectible_auction() {
    assert_eq!(ContractAmount::with(1, 0, 0).unwrap().to_value(), 1);
    run_auction(Interface::Rgb21, 0, 2, 1);
}

#[test]
fn offer_needs_the_allocation_it_sells() {
    let Market { mut engine, seller, buyer } = market(Interface::Rgb20, 2, 500);
    let fragment = || seller_fragment(1, 5, 500);
    let ask = |amount, strategy| offer_request(1, amount, 100_000, strategy);

    assert_eq!(
        engine.create_seller_offer(
            &seller,
            ask(ContractAmount::new(501, 2), SwapStrategy::HotSwap),
            fragment(),
            &vec![]
        ),
        Err(SwapError::InsufficientAllocation)
    );
    assert_eq!(
        engine.create_seller_offer(
            &buyer,
            ask(ContractAmount::new(1, 2), SwapStrategy::HotSwap),
            fragment(),
            &vec![]
        ),
        Err(SwapError::InsufficientAllocation)
    );
    assert_eq!(
        engine.create_seller_offer(
            &seller,
            ask(ContractAmount::new(5, 0), SwapStrategy::HotSwap),
            fragment(),
            &vec![]
        ),
        Err(SwapError::PrecisionMismatch)
    );
    assert_eq!(
        engine.create_seller_offer(
            &seller,
            offer_request(9, ContractAmount::new(1, 2), 1, SwapStrategy::HotSwap),
            fragment(),
            &vec![]
        ),
        Err(SwapError::UnknownContract)
    );
    assert_eq!(
        engine.create_seller_offer(
            &seller,
            ask(ContractAmount::new(500, 2), SwapStrategy::Auction),
            fragment(),
            &vec![]
        ),
        Err(SwapError::WrongStrategy)
    );
    assert!(engine.offer(0).is_none());

    let all = engine.create_seller_offer(
        &seller,
        ask(ContractAmount::new(500, 2), SwapStrategy::HotSwap),
        fragment(),
        &vec![],
    );
    assert_eq!(all.unwrap().remaining, 500);
    let none = engine.create_seller_offer(
        &seller,
        ask(ContractAmount::new(0, 2), SwapStrategy::P2P),
        fragment(),
        &vec![SELLER_ASSETS],
    );
    let none = none.unwrap();
    assert_eq!(none.id, 1);
    assert_eq!(none.state, OfferState::SellerSigned);
    assert_eq!(none.terms, Terms::P2P { seller_signed: true });
    assert!(engine.offer_psbt(1).unwrap().inputs[0].signed);
    assert!(!engine.offer_psbt(0).unwrap().inputs[0].signed);
    assert!(engine.offer_psbt(2).is_none());
}

#[test]
fn bid_may_ask_for_all_but_no_more() {
    let Market { mut engine, seller, mut buyer } = market(Interface::Rgb20, 2, 500);
    let seal = buyer.blind_utxo(out(8, 0), 7).conceal;
    let offer = engine
        .create_seller_offer(
            &seller,
            offer_request(1, ContractAmount::new(499, 2), 100_000, SwapStrategy::HotSwap),
            seller_fragment(1, 5, 500),
            &vec![],
        )
        .unwrap();
    let fragment = || buyer_fragment(1, 12, 100_000);
    let bid = |amount| bid_request(offer.id, amount, seal);

    assert_eq!(
        engine.create_buyer_bid(id(BUYER), bid(ContractAmount::new(500, 2)), fragment(), NOW),
        Err(SwapError::AmountExceedsOffer)
    );
    assert_eq!(
        engine.create_buyer_bid(id(BUYER), bid(ContractAmount::new(4, 0)), fragment(), NOW),
        Err(SwapError::PrecisionMismatch)
    );
    assert_eq!(
        engine.create_auction_bid(id(BUYER), bid(ContractAmount::new(4, 2)), fragment(), NOW),
        Err(SwapError::WrongStrategy)
    );
    assert_eq!(
        engine.create_buyer_bid(
            id(BUYER),
            bid_request(7, ContractAmount::new(4, 2), seal),
            fragment(),
            NOW
        ),
        Err(SwapError::OfferNotFound)
    );
    assert_eq!(engine.offer(0).unwrap(), offer);
    assert!(engine.bid(0).is_none());

    let first = engine
        .create_buyer_bid(id(BUYER), bid(ContractAmount::new(400, 2)), fragment(), EXPIRE_AT - 1)
        .unwrap();
    assert_eq!(first.id, 0);
    assert_eq!(first.offer, 0);
    assert_eq!(first.buyer, id(BUYER));
    assert_eq!(first.state, BidState::Created);
    // What the first bid asked for is no longer open to others.
    assert_eq!(
        engine.create_buyer_bid(id(RIVAL), bid(ContractAmount::new(100, 2)), fragment(), NOW),
        Err(SwapError::AmountExceedsOffer)
    );
    let second = engine
        .create_buyer_bid(id(RIVAL), bid(ContractAmount::new(99, 2)), fragment(), NOW)
        .unwrap();
    assert_eq!(second.id, 1);
    assert_eq!(engine.offer(0).unwrap().remaining, 0);
    assert_eq!(engine.standing_bids(0), 2);
    assert!(engine
        .create_buyer_bid(id(RIVAL), bid(ContractAmount::new(0, 2)), fragment(), NOW)
        .is_ok());
}

#[test]
fn expired_offer_takes_no_bid() {
    let Market { mut engine, seller, mut buyer } = market(Interface::Rgb20, 2, 500);
    let seal = buyer.blind_utxo(out(8, 0), 7).conceal;
    let offer = engine
        .create_seller_offer(
            &seller,
            offer_request(1, ContractAmount::new(499, 2), 100_000, SwapStrategy::HotSwap),
            seller_fragment(1, 5, 500),
            &vec![],
        )
        .unwrap();
    assert_eq!(offer.expire_at, EXPIRE_AT);
    let bid = bid_request(0, ContractAmount::new(400, 2), seal);
    assert_eq!(engine.offer(0).unwrap().state, OfferState::Open);
    assert_eq!(
        engine.create_buyer_bid(id(BUYER), bid, buyer_fragment(1, 12, 1), EXPIRE_AT),
        Err(SwapError::OfferExpired)
    );
    // Nothing swept the offer before; the bid that found it did.
    assert_eq!(engine.offer(0).unwrap().state, OfferState::Expired);
    assert_eq!(engine.offer(0).unwrap().remaining, 499);
    assert!(engine.bid(0).is_none());
    // Expired is expired, whatever the clock says afterwards.
    assert_eq!(
        engine.create_buyer_bid(id(BUYER), bid, buyer_fragment(1, 12, 1), NOW),
        Err(SwapError::OfferExpired)
    );
    assert_eq!(
        engine.update_seller_offer(id(SELLER), 0, seller_fragment(1, 5, 500)),
        Err(SwapError::OfferNotFound)
    );
}

#[test]
fn expired_offer_is_not_finalized() {
    let Market { mut engine, seller, mut buyer } = market(Interface::Rgb20, 2, 500);
    let seal = buyer.blind_utxo(out(8, 0), 7).conceal;
    engine
        .create_seller_offer(
            &seller,
            offer_request(1, ContractAmount::new(499, 2), 100_000, SwapStrategy::HotSwap),
            seller_fragment(1, 5, 500),
            &vec![],
        )
        .unwrap();
    engine
        .create_buyer_bid(
            id(BUYER),
            bid_request(0, ContractAmount::new(400, 2), seal),
            buyer_fragment(1, 12, 100_000),
            NOW,
        )
        .unwrap();
    assert_eq!(
        engine.create_swap_transfer(id(SELLER), 0, 0, buyer_fragment(1, 12, 100_000), EXPIRE_AT + 1),
        Err(SwapError::OfferExpired)
    );
    assert_eq!(engine.offer(0).unwrap().state, OfferState::Expired);
    assert_eq!(engine.bid(0).unwrap().state, BidState::Created);
    assert_eq!(
        engine.create_swap_transfer(id(SELLER), 0, 0, buyer_fragment(1, 12, 100_000), NOW),
        Err(SwapError::OfferExpired)
    );
}

#[test]
fn two_standing_bids_are_ambiguous() {
    let Market { mut engine, seller, mut buyer } = market(Interface::Rgb20, 2, 500);
    let seal = buyer.blind_utxo(out(8, 0), 7).conceal;
    engine
        .create_seller_offer(
            &seller,
            offer_request(1, ContractAmount::new(499, 2), 100_000, SwapStrategy::HotSwap),
            seller_fragment(1, 5, 500),
            &vec![],
        )
        .unwrap();
    for (buyer_id, coin) in [(BUYER, 12), (RIVAL, 13)] {
        engine
            .create_buyer_bid(
                id(buyer_id),
                bid_request(0, ContractAmount::new(100, 2), seal),
                buyer_fragment(1, coin, 100_000),
                NOW,
            )
            .unwrap();
    }
    for bid_id in [0, 1] {
        assert_eq!(
            engine.create_swap_transfer(id(SELLER), 0, bid_id, buyer_fragment(1, 12, 100_000), NOW),
            Err(SwapError::AmbiguousBid)
        );
    }
    assert_eq!(engine.offer(0).unwrap().state, OfferState::Matched);
    assert_eq!(engine.bid(0).unwrap().state, BidState::Created);
    assert_eq!(engine.bid(1).unwrap().state, BidState::Created);
    assert_eq!(
        engine.create_swap_transfer(id(SELLER), 0, 2, buyer_fragment(1, 12, 100_000), NOW),
        Err(SwapError::BidNotFound)
    );
    assert_eq!(
        engine.create_swap_transfer(id(SELLER), 3, 0, buyer_fragment(1, 12, 100_000), NOW),
        Err(SwapError::OfferNotFound)
    );
}

/// An engine with one matched offer of 4.99 and one bid of `bid` base units on it.
fn matched(strategy: SwapStrategy, fragment: Psbt, change_vout: u32, bid: u64) -> (SwapEngine, Seal) {
    let Market { mut engine, seller, mut buyer } = market(Interface::Rgb20, 2, 500);
    let seal = buyer.blind_utxo(out(8, 0), 7).conceal;
    let mut request = offer_request(1, ContractAmount::new(499, 2), 100_000, strategy);
    request.change_vout = change_vout;
    engine.create_seller_offer(&seller, request, fragment, &vec![]).unwrap();
    engine
        .create_buyer_bid(
            id(BUYER),
            bid_request(0, ContractAmount::new(bid, 2), seal),
            buyer_fragment(1, 12, 100_000),
            NOW,
        )
        .unwrap();
    (engine, seal)
}

#[test]
fn swap_fails_closed() {
    let buyer_psbt = || buyer_fragment(1, 12, 100_000);

    let (mut engine, _) = matched(SwapStrategy::P2P, seller_fragment(1, 5, 500), 0, 400);
    assert_eq!(
        engine.create_swap_transfer(id(BUYER), 0, 0, buyer_psbt(), NOW),
        Err(SwapError::SellerNotSigned)
    );

    let (mut engine, _) = matched(SwapStrategy::HotSwap, seller_fragment(1, 5, 500), 0, 400);
    let mut clash = buyer_psbt();
    clash.inputs.push(PsbtInput {
        outpoint: out(5, 0),
        value: 1_000,
        descriptor: SELLER_ASSETS,
        signed: false,
    });
    assert_eq!(
        engine.create_swap_transfer(id(SELLER), 0, 0, clash, NOW),
        Err(SwapError::Merge(MergeError::Conflict))
    );
    let mut foreign = buyer_psbt();
    foreign.contract = id(2);
    assert_eq!(
        engine.create_swap_transfer(id(SELLER), 0, 0, foreign, NOW),
        Err(SwapError::Merge(MergeError::ContractMismatch))
    );
    let mut greedy = buyer_psbt();
    greedy.assignments.push(Assignment {
        target: SealTarget::Blinded(Seal { commitment: id(66) }),
        amount: 1,
    });
    assert_eq!(
        engine.create_swap_transfer(id(SELLER), 0, 0, greedy, NOW),
        Err(SwapError::AmountMismatch)
    );
    assert_eq!(engine.offer(0).unwrap().state, OfferState::Matched);
    assert_eq!(engine.offer(0).unwrap().anchor, None);
    assert_eq!(engine.bid(0).unwrap().state, BidState::Created);

    let (mut engine, _) = matched(SwapStrategy::HotSwap, seller_fragment(1, 5, 300), 0, 400);
    assert_eq!(
        engine.create_swap_transfer(id(SELLER), 0, 0, buyer_psbt(), NOW),
        Err(SwapError::InvalidTransition)
    );

    let (mut engine, _) = matched(SwapStrategy::HotSwap, seller_fragment(1, 5, 500), 3, 400);
    assert_eq!(
        engine.create_swap_transfer(id(SELLER), 0, 0, buyer_psbt(), NOW),
        Err(SwapError::InvalidSeal)
    );
    // With nothing left over, no output is needed for it.
    let (mut engine, seal) = matched(SwapStrategy::HotSwap, seller_fragment(1, 5, 400), 3, 400);
    let transfer = engine.create_swap_transfer(id(SELLER), 0, 0, buyer_psbt(), NOW).unwrap();
    assert_eq!(
        transfer.consignment.outputs,
        vec![Assignment { target: SealTarget::Blinded(seal), amount: 400 }]
    );
    // A transfer is made once.
    assert_eq!(
        engine.create_swap_transfer(id(SELLER), 0, 0, buyer_psbt(), NOW),
        Err(SwapError::OfferNotFound)
    );
}

#[test]
fn seller_fragment_is_attached_to_p2p_offers_only() {
    let Market { mut engine, seller, .. } = market(Interface::Rgb20, 2, 500);
    for strategy in [SwapStrategy::HotSwap, SwapStrategy::P2P] {
        engine
            .create_seller_offer(
                &seller,
                offer_request(1, ContractAmount::new(499, 2), 100_000, strategy),
                seller_fragment(1, 5, 500),
                &vec![],
            )
            .unwrap();
    }
    let signed = || sign(seller_fragment(1, 5, 500), &vec![SELLER_ASSETS]).psbt;
    assert_eq!(
        engine.update_seller_offer(id(SELLER), 0, signed()),
        Err(SwapError::WrongStrategy)
    );
    assert_eq!(
        engine.update_seller_offer(id(BUYER), 1, signed()),
        Err(SwapError::OfferNotFound)
    );
    assert_eq!(
        engine.update_seller_offer(id(SELLER), 2, signed()),
        Err(SwapError::OfferNotFound)
    );
    assert_eq!(engine.offer(1).unwrap().state, OfferState::Open);
    let unsigned = engine.update_seller_offer(id(SELLER), 1, seller_fragment(1, 5, 500)).unwrap();
    assert_eq!(unsigned.state, OfferState::Open);
    let updated = engine.update_seller_offer(id(SELLER), 1, signed()).unwrap();
    assert_eq!(updated.state, OfferState::SellerSigned);
    assert_eq!(updated.terms, Terms::P2P { seller_signed: true });
    assert_eq!(engine.offer_psbt(1).unwrap(), signed());
}

#[test]
fn settlement_waits_for_confirmation() {
    let (mut engine, _) = matched(SwapStrategy::HotSwap, seller_fragment(1, 5, 500), 0, 400);
    assert_eq!(
        engine.confirm_settlement(0, AnchorStatus::Confirmed(6)),
        Some(OfferState::Matched)
    );
    engine
        .create_swap_transfer(id(SELLER), 0, 0, buyer_fragment(1, 12, 100_000), NOW)
        .unwrap();
    for status in [AnchorStatus::Unknown, AnchorStatus::Broadcast, AnchorStatus::Confirmed(0)] {
        assert_eq!(engine.confirm_settlement(0, status), Some(OfferState::Finalizing));
        assert_eq!(engine.bid(0).unwrap().state, BidState::Finalizing);
    }
    assert_eq!(engine.confirm_settlement(1, AnchorStatus::Confirmed(1)), None);
    assert_eq!(
        engine.confirm_settlement(0, AnchorStatus::Confirmed(1)),
        Some(OfferState::Settled)
    );
    assert_eq!(engine.bid(0).unwrap().state, BidState::Settled);
    assert_eq!(
        engine.confirm_settlement(0, AnchorStatus::Unknown),
        Some(OfferState::Settled)
    );
}

#[test]
fn settlement_depth_is_a_policy() {
    let Market { seller, mut buyer, .. } = market(Interface::Rgb20, 2, 500);
    let seal = buyer.blind_utxo(out(8, 0), 7).conceal;
    for (policy, first_deep_enough) in [(0u32, 1u32), (1, 1), (3, 3)] {
        let mut engine = SwapEngine::new(policy);
        engine
            .create_seller_offer(
                &seller,
                offer_request(1, ContractAmount::new(499, 2), 100_000, SwapStrategy::HotSwap),
                seller_fragment(1, 5, 500),
                &vec![],
            )
            .unwrap();
        engine
            .create_buyer_bid(
                id(BUYER),
                bid_request(0, ContractAmount::new(400, 2), seal),
                buyer_fragment(1, 12, 100_000),
                NOW,
            )
            .unwrap();
        engine
            .create_swap_transfer(id(SELLER), 0, 0, buyer_fragment(1, 12, 100_000), NOW)
            .unwrap();
        assert_eq!(
            engine.confirm_settlement(0, AnchorStatus::Confirmed(first_deep_enough - 1)),
            Some(OfferState::Finalizing)
        );
        assert_eq!(
            engine.confirm_settlement(0, AnchorStatus::Confirmed(first_deep_enough)),
            Some(OfferState::Settled)
        );
    }
}

fn auction_of_three() -> (SwapEngine, Watcher, Vec<Seal>) {
    let mut seller = Watcher::new(id(SELLER));
    let mut buyer = Watcher::new(id(BUYER));
    let mut items = Vec::new();
    let mut seals = Vec::new();
    for n in [1u64, 2, 3] {
        seller.issue(contract(n, Interface::Rgb20, 2, 100), out(4 + n, 0)).unwrap();
        let mut request = offer_request(n, ContractAmount::new(100, 2), 1_000, SwapStrategy::Auction);
        if n == 3 {
            request.expire_at = NOW;
        }
        items.push(AuctionItem { request, psbt: seller_fragment(n, 4 + n, 100) });
        seals.push(buyer.blind_utxo(out(8, n as u32), n).conceal);
    }
    let mut engine = SwapEngine::new(1);
    // An offer outside the bundle, which finishing must not touch.
    seller.issue(contract(9, Interface::Rgb20, 2, 100), out(3, 0)).unwrap();
    engine
        .create_seller_offer(
            &seller,
            offer_request(9, ContractAmount::new(100, 2), 1_000, SwapStrategy::HotSwap),
            seller_fragment(9, 3, 100),
            &vec![],
        )
        .unwrap();
    let bundle = engine.create_auction_offers(&seller, items).unwrap();
    assert_eq!(bundle.offers.iter().map(|o| o.id).collect::<Vec<_>>(), vec![1, 2, 3]);
    (engine, seller, seals)
}

#[test]
fn auction_cancels_what_nobody_bid_for() {
    let (mut engine, _, seals) = auction_of_three();
    engine
        .create_auction_bid(
            id(BUYER),
            bid_request(2, ContractAmount::new(100, 2), seals[1]),
            buyer_fragment(2, 12, 1_000),
            NOW - 1,
        )
        .unwrap();
    assert_eq!(
        engine.create_buyer_bid(
            id(BUYER),
            bid_request(1, ContractAmount::new(100, 2), seals[0]),
            buyer_fragment(1, 12, 1_000),
            NOW - 1
        ),
        Err(SwapError::WrongStrategy)
    );
    let transfers = engine.finish_auction_offers(id(SELLER), 0, NOW).unwrap();
    assert_eq!(transfers.len(), 1);
    assert_eq!(transfers[0].offer_id, 2);
    assert_eq!(transfers[0].bid_id, 0);
    assert_eq!(engine.offer(0).unwrap().state, OfferState::Open);
    assert_eq!(engine.offer(1).unwrap().state, OfferState::Cancelled);
    assert_eq!(engine.offer(2).unwrap().state, OfferState::Finalizing);
    assert_eq!(engine.offer(3).unwrap().state, OfferState::Expired);
    assert_eq!(engine.bundle(0).unwrap().state, BundleState::Closed);
    assert_eq!(
        engine.finish_auction_offers(id(SELLER), 0, NOW),
        Err(SwapError::BundleNotFound)
    );
    assert_eq!(
        engine.confirm_settlement(2, AnchorStatus::Confirmed(1)),
        Some(OfferState::Settled)
    );
    assert_eq!(engine.bundle(0).unwrap().state, BundleState::Finalized);
    // A cancelled offer takes no bid.
    assert_eq!(
        engine.create_auction_bid(
            id(BUYER),
            bid_request(1, ContractAmount::new(100, 2), seals[0]),
            buyer_fragment(1, 12, 1_000),
            NOW - 1
        ),
        Err(SwapError::OfferNotFound)
    );
}

#[test]
fn auction_is_finished_whole_or_not_at_all() {
    let (mut engine, _, seals) = auction_of_three();
    engine
        .create_auction_bid(
            id(BUYER),
            bid_request(1, ContractAmount::new(100, 2), seals[0]),
            buyer_fragment(1, 12, 1_000),
            NOW - 1,
        )
        .unwrap();
    for (buyer_id, coin) in [(BUYER, 13), (RIVAL, 14)] {
        engine
            .create_auction_bid(
                id(buyer_id),
                bid_request(2, ContractAmount::new(50, 2), seals[1]),
                buyer_fragment(2, coin, 1_000),
                NOW - 1,
            )
            .unwrap();
    }
    assert_eq!(
        engine.finish_auction_offers(id(SELLER), 0, NOW - 1),
        Err(SwapError::AmbiguousBid)
    );
    // The first offer would have gone through; it did not.
    assert_eq!(engine.offer(1).unwrap().state, OfferState::Matched);
    assert_eq!(engine.offer(1).unwrap().anchor, None);
    assert_eq!(engine.offer(2).unwrap().state, OfferState::Matched);
    assert_eq!(engine.offer(3).unwrap().state, OfferState::Open);
    assert_eq!(engine.bid(0).unwrap().state, BidState::Created);
    assert_eq!(engine.bundle(0).unwrap().state, BundleState::Open);
    assert_eq!(
        engine.finish_auction_offers(id(SELLER), 1, NOW - 1),
        Err(SwapError::BundleNotFound)
    );
}

#[test]
fn auction_offers_are_made_whole_or_not_at_all() {
    let mut seller = Watcher::new(id(SELLER));
    seller.issue(contract(1, Interface::Rgb20, 2, 100), out(5, 0)).unwrap();
    let mut engine = SwapEngine::new(1);
    let good = || AuctionItem {
        request: offer_request(1, ContractAmount::new(100, 2), 1_000, SwapStrategy::Auction),
        psbt: seller_fragment(1, 5, 100),
    };
    let too_much = AuctionItem {
        request: offer_request(1, ContractAmount::new(101, 2), 1_000, SwapStrategy::Auction),
        psbt: seller_fragment(1, 5, 100),
    };
    let unknown = AuctionItem {
        request: offer_request(2, ContractAmount::new(1, 2), 1_000, SwapStrategy::Auction),
        psbt: seller_fragment(2, 6, 100),
    };
    assert_eq!(
        engine.create_auction_offers(&seller, vec![good(), too_much, unknown]),
        Err(SwapError::InsufficientAllocation)
    );
    let hot = AuctionItem {
        request: offer_request(1, ContractAmount::new(100, 2), 1_000, SwapStrategy::HotSwap),
        psbt: seller_fragment(1, 5, 100),
    };
    assert_eq!(
        engine.create_auction_offers(&seller, vec![good(), hot]),
        Err(SwapError::WrongStrategy)
    );
    assert!(engine.offer(0).is_none());
    assert!(engine.bundle(0).is_none());

    let empty = engine.create_auction_offers(&seller, vec![]).unwrap();
    assert_eq!(empty.bundle_id, 0);
    assert!(empty.offers.is_empty());
    let bundle = engine.create_auction_offers(&seller, vec![good(), good()]).unwrap();
    assert_eq!(bundle.bundle_id, 1);
    assert_eq!(bundle.offers[1], engine.offer(1).unwrap());
    assert_eq!(bundle.offers[0].terms, Terms::Auction { bundle: 1 });
    assert_eq!(engine.finish_auction_offers(id(SELLER), 0, NOW), Ok(vec![]));
    assert_eq!(engine.bundle(0).unwrap().state, BundleState::Finalized);
    assert_eq!(engine.bundle(1).unwrap().state, BundleState::Open);
    assert_eq!(engine.offer(0).unwrap().state, OfferState::Open);
}
