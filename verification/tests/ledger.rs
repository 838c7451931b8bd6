use bitmask_core::amount::{AmountError, ContractAmount};
use bitmask_core::consignment::{
    commitment, total_assigned, total_blinded, total_spent, Assignment, Consignment,
    InvalidTransition, SealTarget, Spend,
};
use bitmask_core::ids::{Hash256, OutPoint};
use bitmask_core::ledger::{
    Allocation, AnchorStatus, Contract, ContractRecord, Interface, Invoice, Reason,
    TransferRecord, TransferStatus, ValidationResult,
};
use bitmask_core::psbt::{compose, AssetUtxo, PsbtOutput, Utxo, UtxoFilter};
use bitmask_core::seal::Seal;
use bitmask_core::signing::{finalize, sign};
use bitmask_core::watcher::{
    AnchorObservation, InvoiceError, LedgerError, TransferOutcome, Watcher,
};

fn sha256(data: &[u8]) -> [u8; 32] {
    let digest = <bitcoin::hashes::sha256::Hash as bitcoin::hashes::Hash>::hash(data);
    bitcoin::hashes::Hash::into_inner(digest)
}

fn id(n: u64) -> Hash256 {
    Hash256::from_u64(n)
}

fn out(tx: u64, vout: u32) -> OutPoint {
    OutPoint::new(id(tx), vout)
}

fn token(n: u64, supply: u64) -> Contract {
    Contract {
        id: id(n),
        interface: Interface::Rgb20,
        precision: 2,
        supply,
        ticker: "TKN".to_string(),
        name: "Token".to_string(),
        description: "A token for tests".to_string(),
    }
}

const VALID: ValidationResult = ValidationResult { valid: true, reason: Reason::Valid };

fn refused(reason: Reason) -> ValidationResult {
    ValidationResult { valid: false, reason }
}

/// A transfer of `amount` from the allocation of `held` on `from` to `seal`,
/// with the rest returning on output 1 of the anchor.
fn transfer(contract: u64, anchor: u64, from: OutPoint, held: u64, seal: Seal, amount: u64) -> Consignment {
    let mut outputs = vec![Assignment { target: SealTarget::Blinded(seal), amount }];
    if held > amount {
        outputs.push(Assignment { target: SealTarget::Output(1), amount: held - amount });
    }
    Consignment::build(
        id(contract),
        id(anchor),
        vec![Spend { outpoint: from, amount: held }],
        outputs,
    )
    .unwrap()
}

#[test]
fn consignment_id_commits_to_the_content() {
    let seal = Seal { commitment: id(77) };
    let inputs = vec![Spend { outpoint: out(5, 2), amount: 500 }];
    let outputs = vec![
        Assignment { target: SealTarget::Blinded(seal), amount: 400 },
        Assignment { target: SealTarget::Output(1), amount: 100 },
    ];
    let c = Consignment::build(id(1), id(9), inputs.clone(), outputs.clone()).unwrap();
    assert_eq!(c.contract, id(1));
    assert_eq!(c.anchor, id(9));
    assert_eq!(c.inputs, inputs);
    assert_eq!(c.outputs, outputs);

    let mut bytes = Vec::new();
    bytes.extend_from_slice(&id(1).to_bytes());
    bytes.extend_from_slice(&id(9).to_bytes());
    bytes.extend_from_slice(&1u64.to_be_bytes());
    bytes.extend_from_slice(&id(5).to_bytes());
    bytes.extend_from_slice(&2u32.to_be_bytes());
    bytes.extend_from_slice(&500u64.to_be_bytes());
    bytes.extend_from_slice(&2u64.to_be_bytes());
    bytes.push(0);
    bytes.extend_from_slice(&id(77).to_bytes());
    bytes.extend_from_slice(&400u64.to_be_bytes());
    bytes.push(1);
    bytes.extend_from_slice(&1u32.to_be_bytes());
    bytes.extend_from_slice(&100u64.to_be_bytes());
    let expected = Hash256::from_bytes(&sha256(&bytes));
    assert_eq!(c.id, expected);
    assert_eq!(commitment(id(1), id(9), &inputs, &outputs), expected);
    assert!(c.commitment_holds());
    assert!(c.is_balanced());

    let other = Consignment::build(id(1), id(10), inputs, outputs).unwrap();
    assert_ne!(other.id, c.id);
    let mut forged = c.clone();
    forged.outputs[0].amount = 401;
    assert!(!forged.commitment_holds());
    assert!(!forged.is_balanced());
}

#[test]
fn unbalanced_transition_is_refused() {
    let seal = Seal { commitment: id(77) };
    let r = Consignment::build(
        id(1),
        id(9),
        vec![Spend { outpoint: out(5, 2), amount: 500 }],
        vec![Assignment { target: SealTarget::Blinded(seal), amount: 499 }],
    );
    assert_eq!(r, Err(InvalidTransition { consumed: 500, assigned: 499 }));
    let r = Consignment::build(id(1), id(9), vec![], vec![Assignment {
        target: SealTarget::Output(0),
        amount: 1,
    }]);
    assert_eq!(r, Err(InvalidTransition { consumed: 0, assigned: 1 }));
    assert!(Consignment::build(id(1), id(9), vec![], vec![]).is_ok());
}

#[test]
fn totals_do_not_overflow() {
    let inputs = vec![
        Spend { outpoint: out(1, 0), amount: u64::MAX },
        Spend { outpoint: out(2, 0), amount: u64::MAX },
    ];
    assert_eq!(total_spent(&inputs), 2 * (u64::MAX as u128));
    let outputs = vec![
        Assignment { target: SealTarget::Output(0), amount: u64::MAX },
        Assignment { target: SealTarget::Blinded(Seal { commitment: id(3) }), amount: u64::MAX },
        Assignment { target: SealTarget::Blinded(Seal { commitment: id(4) }), amount: 5 },
    ];
    assert_eq!(total_assigned(&outputs), 2 * (u64::MAX as u128) + 5);
    assert_eq!(total_blinded(&outputs), u64::MAX as u128 + 5);
    assert_eq!(total_spent(&vec![]), 0);
}

#[test]
fn allow_issuer_issue_fungible_contract() {
    let mut issuer = Watcher::new(id(100));
    assert_eq!(issuer.identity(), id(100));
    let mut contract = token(1, 5);
    contract.interface = Interface::from_name("RGB20").unwrap();
    assert_eq!(issuer.balance(id(1)), Err(LedgerError::UnknownContract));
    assert!(issuer.contract(id(1)).is_none());
    let issuer_resp = issuer.issue(contract.clone(), out(5, 0));
    assert!(issuer_resp.is_ok());
    assert_eq!(issuer.balance(id(1)), Ok(5));
    assert_eq!(issuer.balance_amount(id(1)), Ok(ContractAmount::new(5, 2)));
    assert_eq!(issuer.contract(id(1)), Some(&contract));
    assert_eq!(
        issuer.allocations_of(id(1)),
        vec![Allocation { contract: id(1), outpoint: out(5, 0), amount: 5, seal: None }]
    );
    assert_eq!(issuer.allocations_of(id(2)), vec![]);
    assert_eq!(issuer.issue(contract, out(6, 0)), Err(LedgerError::ContractExists));
    assert_eq!(issuer.balance(id(1)), Ok(5));
}

#[test]
fn allow_issuer_issue_uda_contract() {
    let mut issuer = Watcher::new(id(100));
    let mut uda = token(2, 1);
    uda.interface = Interface::from_name("RGB21").unwrap();
    uda.precision = 0;
    let issuer_resp = issuer.issue(uda, out(5, 1));
    assert!(issuer_resp.is_ok());
    assert_eq!(issuer.balance(id(2)), Ok(1));
    assert_eq!(issuer.balance_amount(id(2)).unwrap().to_string(), "1");
}

#[test]
fn allow_issuer_issue_collectible_contract() {
    let mut issuer = Watcher::new(id(100));
    let mut first = token(3, 1);
    first.interface = Interface::from_name("RGB21").unwrap();
    let mut second = token(4, 1);
    second.interface = Interface::from_name("RGB21").unwrap();
    let issuer_resp = issuer.issue(first, out(5, 1));
    assert!(issuer_resp.is_ok());
    assert_eq!(issuer.issue(second, out(5, 1)), Ok(()));
    assert_eq!(issuer.balance(id(3)), Ok(1));
    assert_eq!(issuer.balance(id(4)), Ok(1));
}

#[test]
fn import_registers_without_allocation() {
    let mut w = Watcher::new(id(100));
    let first = w.import_contract(token(1, 500));
    assert_eq!(first, Ok(ContractRecord { contract: token(1, 500), balance: 0 }));
    assert_eq!(w.balance(id(1)), Ok(0));
    assert_eq!(w.get_contract(id(1)), first);
    assert_eq!(w.get_contract(id(2)), Err(LedgerError::UnknownContract));
}

#[test]
fn import_of_the_same_definition_answers_as_before() {
    let mut w = Watcher::new(id(100));
    let first = w.import_contract(token(1, 500));
    let again = w.import_contract(token(1, 500));
    assert!(again.is_ok());
    assert_eq!(again, first);
    assert_eq!(w.contract(id(1)), Some(&token(1, 500)));

    // Another definition under the same id is turned down, whatever differs.
    assert_eq!(w.import_contract(token(1, 700)), Err(LedgerError::ContractExists));
    let mut other = token(1, 500);
    other.precision = 3;
    assert_eq!(w.import_contract(other), Err(LedgerError::ContractExists));
    let mut other = token(1, 500);
    other.interface = Interface::Rgb21;
    assert_eq!(w.import_contract(other), Err(LedgerError::ContractExists));
    let mut other = token(1, 500);
    other.ticker = "TKX".to_string();
    assert_eq!(w.import_contract(other), Err(LedgerError::ContractExists));
    let mut other = token(1, 500);
    other.name = "Tokens".to_string();
    assert_eq!(w.import_contract(other), Err(LedgerError::ContractExists));
    let mut other = token(1, 500);
    other.description = String::new();
    assert_eq!(w.import_contract(other), Err(LedgerError::ContractExists));
    assert_eq!(w.contract(id(1)).unwrap().supply, 500);
    assert_eq!(w.get_contract(id(1)), first);
}

#[test]
fn import_by_the_holder_reads_the_balance() {
    let mut issuer = Watcher::new(id(100));
    let mut owner = Watcher::new(id(200));
    issuer.issue(token(1, 500), out(5, 0)).unwrap();
    // The issuer holds the contract already: the import changes nothing and tells the balance.
    assert_eq!(
        issuer.import_contract(token(1, 500)),
        Ok(ContractRecord { contract: token(1, 500), balance: 500 })
    );
    assert_eq!(issuer.balance(id(1)), Ok(500));
    assert_eq!(issuer.allocations_of(id(1)).len(), 1);
    // Issuing is making: a contract is not issued twice.
    assert_eq!(issuer.issue(token(1, 500), out(6, 0)), Err(LedgerError::ContractExists));

    owner.import_contract(token(1, 500)).unwrap();
    let seal = owner.blind_utxo(out(8, 3), 11).conceal;
    let c = transfer(1, 9, out(5, 0), 500, seal, 400);
    assert!(issuer.accept_transfer(c.clone(), AnchorStatus::Confirmed(1)).valid);
    assert!(owner.accept_transfer(c, AnchorStatus::Confirmed(1)).valid);
    assert_eq!(owner.import_contract(token(1, 500)).unwrap().balance, 400);
    assert_eq!(issuer.import_contract(token(1, 500)).unwrap().balance, 100);
    assert_eq!(owner.get_contract(id(1)).unwrap().balance, 400);
}

#[test]
fn invoice_is_written_in_the_contract_precision() {
    let mut w = Watcher::new(id(100));
    w.import_contract(token(1, 500)).unwrap();
    let seal = w.blind_utxo(out(8, 0), 11).conceal;
    let made = w.create_invoice(id(1), Interface::Rgb20, ContractAmount::new(4, 0), seal, Some(99));
    let expected = Invoice {
        contract: id(1),
        interface: Interface::Rgb20,
        amount: ContractAmount::new(400, 2),
        seal,
        expire_at: Some(99),
    };
    assert_eq!(made, Ok(expected));
    assert_eq!(w.invoices(), vec![expected]);

    assert_eq!(
        w.create_invoice(id(2), Interface::Rgb20, ContractAmount::new(4, 0), seal, None),
        Err(InvoiceError::UnknownContract)
    );
    assert_eq!(
        w.create_invoice(id(1), Interface::Rgb21, ContractAmount::new(4, 0), seal, None),
        Err(InvoiceError::UnknownContract)
    );
    assert_eq!(
        w.create_invoice(id(1), Interface::Rgb20, ContractAmount::new(u64::MAX, 0), seal, None),
        Err(InvoiceError::InvalidAmount)
    );
    assert_eq!(
        w.create_invoice(id(1), Interface::Rgb20, ContractAmount::new(4001, 3), seal, None),
        Err(InvoiceError::InvalidAmount)
    );
    assert_eq!(ContractAmount::new(4001, 3).rescale(2), Err(AmountError::PrecisionMismatch));
    assert_eq!(w.invoices().len(), 1);
}

#[test]
fn blinding_twice_hands_out_the_same_seal() {
    let mut w = Watcher::new(id(100));
    let first = w.blind_utxo(out(8, 0), 11);
    let again = w.blind_utxo(out(8, 0), 11);
    assert_eq!(first, again);
    assert_eq!(first.blinding, 11);
    let other = w.blind_utxo(out(8, 0), 12);
    assert_ne!(other.conceal, first.conceal);
}

#[test]
fn allow_beneficiary_accept_transfer() {
    let assets_descriptor = 20;
    let mut issuer = Watcher::new(id(100));
    let mut owner = Watcher::new(id(200));
    let mut fungible = token(1, 5);
    fungible.precision = 0;
    issuer.issue(fungible.clone(), out(5, 0)).unwrap();
    owner.import_contract(fungible).unwrap();

    // The owner asks for one unit on a blinded seal.
    let seal = owner.blind_utxo(out(8, 3), 11).conceal;
    let invoice = owner
        .create_invoice(id(1), Interface::Rgb20, ContractAmount::new(1, 0), seal, None)
        .unwrap();

    // The issuer composes the transaction that pays the invoice.
    let carrier = Utxo { outpoint: out(5, 0), value: 10_000_000, descriptor: assets_descriptor };
    let psbt = compose(
        id(1),
        &vec![AssetUtxo { utxo: carrier, amount: 5 }],
        &vec![],
        &vec![
            Assignment { target: SealTarget::Blinded(invoice.seal), amount: invoice.amount.value },
            Assignment { target: SealTarget::Output(0), amount: 4 },
        ],
        &vec![PsbtOutput { value: 9_999_000, descriptor: assets_descriptor }],
        1_000,
        UtxoFilter::with_amount_equal_than(10_000_000),
        assets_descriptor,
    )
    .unwrap();
    let transfer = psbt.build_consignment();
    assert!(transfer.is_ok());
    let consig = transfer.unwrap();

    assert!(issuer.holds_inputs(id(1), &psbt.spends));
    let resp = sign(psbt, &vec![assets_descriptor]);
    assert!(resp.sign);
    let tx = finalize(&resp.psbt).unwrap();
    assert_eq!(tx.txid, consig.anchor);

    let resp = owner.accept_transfer(consig.clone(), AnchorStatus::Broadcast);
    assert!(resp.valid);
    assert_eq!(resp, VALID);
    assert_eq!(owner.balance(id(1)), Ok(1));
    assert_eq!(
        owner.allocations_of(id(1)),
        vec![Allocation { contract: id(1), outpoint: out(8, 3), amount: 1, seal: Some(seal) }]
    );
    assert_eq!(
        owner.transfers(),
        vec![TransferRecord { id: consig.id, status: TransferStatus::Accepted, reason: Reason::Valid }]
    );

    assert_eq!(issuer.accept_transfer(consig.clone(), AnchorStatus::Confirmed(1)), VALID);
    assert_eq!(issuer.balance(id(1)), Ok(4));
    assert_eq!(
        issuer.allocations_of(id(1)),
        vec![Allocation {
            contract: id(1),
            outpoint: OutPoint::new(consig.anchor, 0),
            amount: 4,
            seal: None
        }]
    );
}

#[test]
fn accepting_twice_changes_nothing() {
    let mut issuer = Watcher::new(id(100));
    let mut owner = Watcher::new(id(200));
    issuer.issue(token(1, 500), out(5, 0)).unwrap();
    owner.import_contract(token(1, 500)).unwrap();
    let seal = owner.blind_utxo(out(8, 3), 11).conceal;
    let c = transfer(1, 9, out(5, 0), 500, seal, 100);

    for w in [&mut issuer, &mut owner] {
        let first = w.accept_transfer(c.clone(), AnchorStatus::Confirmed(1));
        let balance = w.balance(id(1));
        let allocations = w.allocations_of(id(1));
        let log = w.transfers();
        let second = w.accept_transfer(c.clone(), AnchorStatus::Confirmed(1));
        assert_eq!(first, VALID);
        assert_eq!(second, first);
        assert_eq!(w.balance(id(1)), balance);
        assert_eq!(w.allocations_of(id(1)), allocations);
        assert_eq!(w.transfers(), log);
        assert_eq!(w.pending_count(), 0);
        // Even a chain that has lost sight of the anchor does not undo it.
        assert_eq!(w.accept_transfer(c.clone(), AnchorStatus::Unknown), VALID);
        assert_eq!(w.balance(id(1)), balance);
    }
    assert_eq!(issuer.balance(id(1)), Ok(400));
    assert_eq!(owner.balance(id(1)), Ok(100));
}

#[test]
fn refusing_twice_changes_nothing() {
    let mut owner = Watcher::new(id(200));
    owner.import_contract(token(1, 500)).unwrap();
    let seal = owner.blind_utxo(out(8, 3), 11).conceal;
    let c = transfer(1, 9, out(5, 0), 500, seal, 100);

    let first = owner.accept_transfer(c.clone(), AnchorStatus::Unknown);
    assert_eq!(first, refused(Reason::AnchorUnconfirmed));
    let log = owner.transfers();
    assert_eq!(
        log,
        vec![TransferRecord {
            id: c.id,
            status: TransferStatus::Pending,
            reason: Reason::AnchorUnconfirmed
        }]
    );
    assert_eq!(owner.pending_count(), 1);
    assert_eq!(owner.accept_transfer(c.clone(), AnchorStatus::Unknown), first);
    assert_eq!(owner.transfers(), log);
    assert_eq!(owner.pending_count(), 1);
    assert_eq!(owner.balance(id(1)), Ok(0));

    // A consignment that the contract is unknown for is logged as rejected.
    let foreign = transfer(2, 9, out(5, 0), 500, seal, 100);
    let first = owner.accept_transfer(foreign.clone(), AnchorStatus::Confirmed(3));
    assert_eq!(first, refused(Reason::UnknownContract));
    assert_eq!(owner.transfers().len(), 2);
    assert_eq!(
        owner.transfers()[1],
        TransferRecord {
            id: foreign.id,
            status: TransferStatus::Rejected,
            reason: Reason::UnknownContract
        }
    );
    let log = owner.transfers();
    assert_eq!(owner.accept_transfer(foreign, AnchorStatus::Confirmed(3)), first);
    assert_eq!(owner.transfers(), log);
    assert_eq!(owner.pending_count(), 1);
    assert_eq!(owner.balance(id(1)), Ok(0));
}

#[test]
fn forgery_leaves_no_trace() {
    let mut owner = Watcher::new(id(200));
    owner.import_contract(token(1, 500)).unwrap();
    let seal = owner.blind_utxo(out(8, 3), 11).conceal;
    let c = transfer(1, 9, out(5, 0), 500, seal, 100);
    assert!(!owner.accept_transfer(c.clone(), AnchorStatus::Unknown).valid);
    let log = owner.transfers();

    // The forgery bears the id of the consignment that waits; it does not take its place.
    let mut forged = c.clone();
    forged.outputs[0].amount = 500;
    assert_eq!(
        owner.accept_transfer(forged.clone(), AnchorStatus::Confirmed(3)),
        refused(Reason::CommitmentMismatch)
    );
    assert_eq!(owner.transfers(), log);
    assert_eq!(owner.pending_count(), 1);

    assert_eq!(owner.accept_transfer(c.clone(), AnchorStatus::Confirmed(3)), VALID);
    assert_eq!(owner.balance(id(1)), Ok(100));
    // Nor is the forgery answered as the accepted consignment is.
    assert_eq!(
        owner.accept_transfer(forged, AnchorStatus::Confirmed(3)),
        refused(Reason::CommitmentMismatch)
    );
    assert_eq!(owner.accept_transfer(c, AnchorStatus::Confirmed(3)), VALID);
    assert_eq!(owner.balance(id(1)), Ok(100));
    assert_eq!(owner.transfers().len(), 1);
}

#[test]
fn validation_gives_the_first_reason() {
    let mut issuer = Watcher::new(id(100));
    issuer.issue(token(1, 500), out(5, 0)).unwrap();
    let seal = Seal { commitment: id(77) };
    let good = transfer(1, 9, out(5, 0), 500, seal, 100);
    assert_eq!(issuer.validate(&good, AnchorStatus::Broadcast), VALID);
    assert_eq!(issuer.validate(&good, AnchorStatus::Confirmed(0)), VALID);
    assert_eq!(
        issuer.validate(&good, AnchorStatus::Unknown),
        refused(Reason::AnchorUnconfirmed)
    );

    let unknown = transfer(2, 9, out(5, 0), 500, seal, 100);
    assert_eq!(
        issuer.validate(&unknown, AnchorStatus::Unknown),
        refused(Reason::UnknownContract)
    );

    let mut forged = good.clone();
    forged.anchor = id(10);
    assert_eq!(
        issuer.validate(&forged, AnchorStatus::Unknown),
        refused(Reason::CommitmentMismatch)
    );

    let mut inflated = good.clone();
    inflated.outputs[0].amount = 101;
    inflated.id = commitment(inflated.contract, inflated.anchor, &inflated.inputs, &inflated.outputs);
    assert_eq!(
        issuer.validate(&inflated, AnchorStatus::Unknown),
        refused(Reason::Unbalanced)
    );

    let twice = Consignment::build(
        id(1),
        id(9),
        vec![
            Spend { outpoint: out(5, 0), amount: 500 },
            Spend { outpoint: out(5, 0), amount: 500 },
        ],
        vec![Assignment { target: SealTarget::Blinded(seal), amount: 1000 }],
    )
    .unwrap();
    assert_eq!(issuer.validate(&twice, AnchorStatus::Unknown), refused(Reason::DoubleSpend));

    let wrong_amount = transfer(1, 9, out(5, 0), 499, seal, 100);
    assert_eq!(
        issuer.validate(&wrong_amount, AnchorStatus::Unknown),
        refused(Reason::InputMismatch)
    );

    // Nothing of this touched the ledger.
    assert_eq!(issuer.balance(id(1)), Ok(500));
    assert_eq!(issuer.transfers(), vec![]);
}

#[test]
fn spent_allocation_cannot_be_spent_again() {
    let mut issuer = Watcher::new(id(100));
    let mut owner = Watcher::new(id(200));
    issuer.issue(token(1, 500), out(5, 0)).unwrap();
    owner.import_contract(token(1, 500)).unwrap();
    let seal = owner.blind_utxo(out(8, 3), 11).conceal;
    let other_seal = owner.blind_utxo(out(8, 4), 12).conceal;
    let first = transfer(1, 9, out(5, 0), 500, seal, 100);
    let second = transfer(1, 10, out(5, 0), 500, other_seal, 500);

    assert_eq!(owner.accept_transfer(first.clone(), AnchorStatus::Confirmed(1)), VALID);
    assert_eq!(
        owner.accept_transfer(second.clone(), AnchorStatus::Confirmed(1)),
        refused(Reason::DoubleSpend)
    );
    assert_eq!(owner.balance(id(1)), Ok(100));

    assert_eq!(issuer.accept_transfer(first, AnchorStatus::Confirmed(1)), VALID);
    assert_eq!(
        issuer.accept_transfer(second, AnchorStatus::Confirmed(1)),
        refused(Reason::DoubleSpend)
    );
    assert_eq!(issuer.balance(id(1)), Ok(400));
}

#[test]
fn seal_is_consumed_once() {
    let mut owner = Watcher::new(id(200));
    owner.import_contract(token(1, 500)).unwrap();
    let seal = owner.blind_utxo(out(8, 3), 11).conceal;
    let first = transfer(1, 9, out(5, 0), 200, seal, 100);
    let second = transfer(1, 10, out(6, 0), 300, seal, 300);
    assert_eq!(owner.accept_transfer(first, AnchorStatus::Confirmed(1)), VALID);
    assert_eq!(owner.balance(id(1)), Ok(100));
    // The second transfer is sound, but pays a seal that is closed: nothing is credited.
    assert_eq!(owner.accept_transfer(second, AnchorStatus::Confirmed(1)), VALID);
    assert_eq!(owner.balance(id(1)), Ok(100));
}

#[test]
fn balance_never_exceeds_supply() {
    let mut owner = Watcher::new(id(200));
    owner.import_contract(token(1, 500)).unwrap();
    let seal = owner.blind_utxo(out(8, 3), 11).conceal;
    let c = transfer(1, 9, out(5, 0), 501, seal, 501);
    assert_eq!(
        owner.accept_transfer(c, AnchorStatus::Confirmed(1)),
        refused(Reason::ExceedsSupply)
    );
    assert_eq!(owner.balance(id(1)), Ok(0));
    let c = transfer(1, 9, out(5, 0), 500, seal, 500);
    assert_eq!(owner.accept_transfer(c, AnchorStatus::Confirmed(1)), VALID);
    assert_eq!(owner.balance(id(1)), Ok(500));
}

#[test]
fn other_contracts_keep_their_balance() {
    let mut w = Watcher::new(id(100));
    w.issue(token(1, 500), out(5, 0)).unwrap();
    w.issue(token(2, 70), out(5, 0)).unwrap();
    let seal = Seal { commitment: id(77) };
    let c = transfer(1, 9, out(5, 0), 500, seal, 500);
    assert_eq!(w.accept_transfer(c, AnchorStatus::Confirmed(1)), VALID);
    assert_eq!(w.balance(id(1)), Ok(0));
    assert_eq!(w.balance(id(2)), Ok(70));
    assert_eq!(
        w.allocations_of(id(2)),
        vec![Allocation { contract: id(2), outpoint: out(5, 0), amount: 70, seal: None }]
    );
}

#[test]
fn verify_transfers_promotes_what_the_chain_now_shows() {
    let mut owner = Watcher::new(id(200));
    owner.import_contract(token(1, 500)).unwrap();
    let seal_a = owner.blind_utxo(out(8, 3), 11).conceal;
    let seal_b = owner.blind_utxo(out(8, 4), 12).conceal;
    let a = transfer(1, 9, out(5, 0), 200, seal_a, 100);
    let b = transfer(1, 10, out(6, 0), 300, seal_b, 300);
    assert!(!owner.accept_transfer(a.clone(), AnchorStatus::Unknown).valid);
    assert!(!owner.accept_transfer(b.clone(), AnchorStatus::Unknown).valid);
    assert_eq!(owner.pending_count(), 2);

    let nothing = owner.verify_transfers(&vec![]);
    assert_eq!(
        nothing,
        vec![
            TransferOutcome { consignment_id: a.id, is_accept: false },
            TransferOutcome { consignment_id: b.id, is_accept: false },
        ]
    );
    assert_eq!(owner.pending_count(), 2);
    assert_eq!(owner.balance(id(1)), Ok(0));

    let chain = vec![
        AnchorObservation { txid: id(10), status: AnchorStatus::Unknown },
        AnchorObservation { txid: id(10), status: AnchorStatus::Confirmed(1) },
        AnchorObservation { txid: id(11), status: AnchorStatus::Confirmed(6) },
    ];
    let outcome = owner.verify_transfers(&chain);
    assert_eq!(
        outcome,
        vec![
            TransferOutcome { consignment_id: a.id, is_accept: false },
            TransferOutcome { consignment_id: b.id, is_accept: true },
        ]
    );
    assert_eq!(owner.pending_count(), 1);
    assert_eq!(owner.balance(id(1)), Ok(300));
    assert_eq!(
        owner.transfers(),
        vec![
            TransferRecord {
                id: a.id,
                status: TransferStatus::Pending,
                reason: Reason::AnchorUnconfirmed
            },
            TransferRecord { id: b.id, status: TransferStatus::Accepted, reason: Reason::Valid },
        ]
    );

    let chain = vec![AnchorObservation { txid: id(9), status: AnchorStatus::Broadcast }];
    assert_eq!(
        owner.verify_transfers(&chain),
        vec![TransferOutcome { consignment_id: a.id, is_accept: true }]
    );
    assert_eq!(owner.pending_count(), 0);
    assert_eq!(owner.balance(id(1)), Ok(400));
    assert_eq!(owner.verify_transfers(&chain), vec![]);
}

#[test]
fn interface_names_are_read() {
    assert_eq!(Interface::from_name("RGB20"), Some(Interface::Rgb20));
    assert_eq!(Interface::from_name("RGB21"), Some(Interface::Rgb21));
    assert_eq!(Interface::from_name("rgb20"), None);
    assert_eq!(Interface::from_name("RGB2"), None);
    assert_eq!(Interface::from_name("RGB200"), None);
    assert_eq!(Interface::from_name(""), None);
    assert_eq!(Interface::Rgb20.name(), "RGB20");
    assert_eq!(Interface::Rgb21.name(), "RGB21");
}

#[test]
fn chain_answers_become_a_status() {
    assert_eq!(AnchorStatus::from_chain(false, None, 100), AnchorStatus::Unknown);
    assert_eq!(AnchorStatus::from_chain(true, None, 100), AnchorStatus::Broadcast);
    assert_eq!(AnchorStatus::from_chain(true, Some(100), 100), AnchorStatus::Confirmed(1));
    assert_eq!(AnchorStatus::from_chain(true, Some(95), 100), AnchorStatus::Confirmed(6));
    assert_eq!(AnchorStatus::from_chain(false, Some(0), 0), AnchorStatus::Confirmed(1));
    assert_eq!(AnchorStatus::from_chain(true, Some(101), 100), AnchorStatus::Confirmed(0));
    assert_eq!(
        AnchorStatus::from_chain(true, Some(0), u32::MAX),
        AnchorStatus::Confirmed(u32::MAX)
    );
    assert_eq!(
        AnchorStatus::from_chain(true, Some(1), u32::MAX),
        AnchorStatus::Confirmed(u32::MAX)
    );
    assert_eq!(
        AnchorStatus::from_chain(true, Some(2), u32::MAX),
        AnchorStatus::Confirmed(u32::MAX - 1)
    );
}

#[test]
fn ownership_is_checked_again_before_signing() {
    let mut issuer = Watcher::new(id(100));
    issuer.issue(token(1, 500), out(5, 0)).unwrap();
    let spend = |tx, amount| vec![Spend { outpoint: out(tx, 0), amount }];
    assert!(issuer.holds_inputs(id(1), &spend(5, 500)));
    assert!(issuer.holds_inputs(id(1), &vec![]));
    assert!(!issuer.holds_inputs(id(1), &spend(5, 499)));
    assert!(!issuer.holds_inputs(id(1), &spend(6, 500)));
    assert!(!issuer.holds_inputs(id(2), &spend(5, 500)));
    let c = transfer(1, 9, out(5, 0), 500, Seal { commitment: id(77) }, 100);
    assert!(issuer.accept_transfer(c, AnchorStatus::Broadcast).valid);
    // The allocation is spent; the rest sits on the anchor now.
    assert!(!issuer.holds_inputs(id(1), &spend(5, 500)));
    assert!(issuer.holds_inputs(id(1), &vec![Spend { outpoint: out(9, 1), amount: 400 }]));
}

#[test]
fn invoice_is_good_for_one_transfer() {
    let mut owner = Watcher::new(id(200));
    owner.import_contract(token(1, 500)).unwrap();
    let seal = owner.blind_utxo(out(8, 3), 11).conceal;
    let dated = owner
        .create_invoice(id(1), Interface::Rgb20, ContractAmount::new(100, 2), seal, Some(50))
        .unwrap();
    let open_ended = owner
        .create_invoice(id(1), Interface::Rgb20, ContractAmount::new(100, 2), seal, None)
        .unwrap();
    assert!(owner.invoice_is_open(&dated, 49));
    assert!(!owner.invoice_is_open(&dated, 50));
    assert!(owner.invoice_is_open(&open_ended, u64::MAX));

    let c = transfer(1, 9, out(5, 0), 100, seal, 100);
    assert!(owner.accept_transfer(c, AnchorStatus::Confirmed(1)).valid);
    assert!(!owner.invoice_is_open(&dated, 0));
    assert!(!owner.invoice_is_open(&open_ended, 0));
}
