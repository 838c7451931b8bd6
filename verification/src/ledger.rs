//! The allocation ledger as mathematics: what a watcher holds, what it means
//! for a consignment to be valid against it, and what accepting one does.
//!
//! Everything here is definition and proof. The executable watcher lives in
//! `watcher` and is proved to follow these definitions.

use vstd::prelude::*;
use crate::amount::ContractAmount;
use crate::consignment::{
    balanced, blinded_total, lemma_assigned_split, returned_total, spent_total, Assignment,
    ConsignmentData, SealTarget, Spend,
};
use crate::ids::{Hash256, OutPoint};
use crate::seal::Seal;

verus! {

/// The interface under which a contract is used.
#[derive(Clone, Copy, Debug, PartialEq, Eq, Structural)]
pub enum Interface {
    /// Fungible assets.
    Rgb20,
    /// Unique and collectible assets.
    Rgb21,
}

/// The immutable definition of a contract.
#[derive(Clone, Debug, PartialEq, Eq)]
pub struct Contract {
    pub id: Hash256,
    pub interface: Interface,
    pub precision: u8,
    pub supply: u64,
    pub ticker: String,
    pub name: String,
    pub description: String,
}

/// What a holder knows of a contract: its definition, and the balance held.
#[derive(Clone, Debug, PartialEq, Eq)]
pub struct ContractRecord {
    pub contract: Contract,
    /// The spendable balance, in base units.
    pub balance: u64,
}

/// An amount of a contract bound to an unspent transaction output.
#[derive(Clone, Copy, Debug, PartialEq, Eq, Structural)]
pub struct Allocation {
    pub contract: Hash256,
    pub outpoint: OutPoint,
    pub amount: u64,
    /// The blinded seal under which the amount was received, if any.
    pub seal: Option<Seal>,
}

/// A seal that this identity handed out, with what it hides.
#[derive(Clone, Copy, Debug, PartialEq, Eq, Structural)]
pub struct SealRecord {
    pub seal: Seal,
    pub outpoint: OutPoint,
    pub blinding: u64,
    /// Whether the seal still waits for its transfer.
    pub open: bool,
}

/// A request to receive an amount of a contract on a seal.
#[derive(Clone, Copy, Debug, PartialEq, Eq, Structural)]
pub struct Invoice {
    pub contract: Hash256,
    pub interface: Interface,
    pub amount: ContractAmount,
    pub seal: Seal,
    /// The time after which the invoice no longer stands, if it has a deadline.
    pub expire_at: Option<u64>,
}

/// An output whose allocation of a contract an accepted transfer consumed.
#[derive(Clone, Copy, Debug, PartialEq, Eq, Structural)]
pub struct SpentSeal {
    pub contract: Hash256,
    pub outpoint: OutPoint,
}

/// What the chain backend reports of an anchoring transaction.
#[derive(Clone, Copy, Debug, PartialEq, Eq, Structural)]
pub enum AnchorStatus {
    /// The backend has not seen the transaction.
    Unknown,
    /// The transaction was relayed and waits in the mempool.
    Broadcast,
    /// The transaction is in a block, this many blocks deep.
    Confirmed(u32),
}

/// The outcome of validating a consignment.
#[derive(Clone, Copy, Debug, PartialEq, Eq, Structural)]
pub enum Reason {
    /// Nothing speaks against the consignment.
    Valid,
    /// The contract is not registered with this identity.
    UnknownContract,
    /// The id does not commit to the content.
    CommitmentMismatch,
    /// The transition creates more or less than it consumes.
    Unbalanced,
    /// An input occurs twice, or was consumed by an earlier transfer.
    DoubleSpend,
    /// An input claims another amount than this identity holds on that output.
    InputMismatch,
    /// The anchoring transaction is neither broadcast nor confirmed.
    AnchorUnconfirmed,
    /// The holder would own more than the contract's total supply.
    ExceedsSupply,
}

/// A validation result: whether the consignment is valid, and if not, why.
#[derive(Clone, Copy, Debug, PartialEq, Eq, Structural)]
pub struct ValidationResult {
    pub valid: bool,
    pub reason: Reason,
}

/// Where a transfer stands in the log.
#[derive(Clone, Copy, Debug, PartialEq, Eq, Structural)]
pub enum TransferStatus {
    Pending,
    Accepted,
    Rejected,
}

/// An entry of the transfer log.
#[derive(Clone, Copy, Debug, PartialEq, Eq, Structural)]
pub struct TransferRecord {
    pub id: Hash256,
    pub status: TransferStatus,
    pub reason: Reason,
}

/// Everything a watcher holds for its identity.
pub struct LedgerState {
    pub identity: Hash256,
    pub contracts: Seq<Contract>,
    pub allocations: Seq<Allocation>,
    pub seals: Seq<SealRecord>,
    pub invoices: Seq<Invoice>,
    pub transfers: Seq<TransferRecord>,
    pub pending: Seq<ConsignmentData>,
    pub spent: Seq<SpentSeal>,
}

/// What an import answers: the record of the contract as the ledger holds it
/// afterwards, or `ContractExists` where another definition is registered
/// under the id.
pub open spec fn import_spec(s: LedgerState, contract: Contract) -> Result<
    ContractRecord,
    crate::watcher::LedgerError,
> {
    if knows(s.contracts, contract.id) && !same_definition(
        contract_of(s.contracts, contract.id),
        contract,
    ) {
        Err(crate::watcher::LedgerError::ContractExists)
    } else {
        Ok(s.imported(contract).record(contract.id))
    }
}

/// The interface that a name stands for: `RGB20` or `RGB21`, and no other.
pub open spec fn interface_named(name: Seq<char>) -> Option<Interface> {
    if name == "RGB20"@ {
        Some(Interface::Rgb20)
    } else if name == "RGB21"@ {
        Some(Interface::Rgb21)
    } else {
        None
    }
}

impl Interface {
    /// Reads the name of an interface.
    pub fn from_name(name: &str) -> (r: Option<Interface>)
        ensures
            r == interface_named(name@),
    {
        let owned = name.to_owned();
        if owned == "RGB20".to_owned() {
            Some(Interface::Rgb20)
        } else if owned == "RGB21".to_owned() {
            Some(Interface::Rgb21)
        } else {
            None
        }
    }

    /// The name of the interface.
    pub fn name(&self) -> (s: &'static str)
        ensures
            s@ == match *self {
                Interface::Rgb20 => "RGB20"@,
                Interface::Rgb21 => "RGB21"@,
            },
    {
        match *self {
            Interface::Rgb20 => "RGB20",
            Interface::Rgb21 => "RGB21",
        }
    }
}

/// How deep a block at `height` lies under a chain whose last block is at
/// `tip`: one for the last block itself, and nothing for a block that the
/// chain does not reach yet.
pub open spec fn depth_under(height: u32, tip: u32) -> u32 {
    if height > tip {
        0
    } else if tip - height == u32::MAX {
        u32::MAX
    } else {
        (tip - height + 1) as u32
    }
}

/// What the chain backend's answer on a transaction amounts to, given the
/// height of the block that holds it, if one does, and the height of the
/// chain's last block.
pub open spec fn status_on_chain(seen: bool, height: Option<u32>, tip: u32) -> AnchorStatus {
    match height {
        Some(h) => AnchorStatus::Confirmed(depth_under(h, tip)),
        None => if seen {
            AnchorStatus::Broadcast
        } else {
            AnchorStatus::Unknown
        },
    }
}

impl AnchorStatus {
    /// The status of a transaction from the chain backend's answer: the
    /// height of the block that holds it, if one does, whether the backend
    /// has seen it at all, and the height of the chain's last block.
    pub fn from_chain(seen: bool, height: Option<u32>, tip: u32) -> (s: AnchorStatus)
        ensures
            s == status_on_chain(seen, height, tip),
    {
        match height {
            Some(h) => {
                let depth = if h > tip {
                    0
                } else if tip - h == u32::MAX {
                    u32::MAX
                } else {
                    tip - h + 1
                };
                AnchorStatus::Confirmed(depth)
            },
            None => if seen {
                AnchorStatus::Broadcast
            } else {
                AnchorStatus::Unknown
            },
        }
    }
}

// ---------------------------------------------------------------------------
// Contracts
// ---------------------------------------------------------------------------

/// Whether a contract with this id is registered.
pub open spec fn knows(contracts: Seq<Contract>, id: Hash256) -> bool {
    exists|i: int| 0 <= i < contracts.len() && (#[trigger] contracts[i]).id == id
}

/// The position of the registered contract with this id.
pub open spec fn contract_index(contracts: Seq<Contract>, id: Hash256) -> int {
    choose|i: int| 0 <= i < contracts.len() && (#[trigger] contracts[i]).id == id
}

/// The registered contract with this id.
pub open spec fn contract_of(contracts: Seq<Contract>, id: Hash256) -> Contract {
    contracts[contract_index(contracts, id)]
}

/// Whether two definitions say the same: the same id, interface, precision
/// and supply, and the same texts.
pub open spec fn same_definition(a: Contract, b: Contract) -> bool {
    &&& a.id == b.id
    &&& a.interface == b.interface
    &&& a.precision == b.precision
    &&& a.supply == b.supply
    &&& a.ticker@ == b.ticker@
    &&& a.name@ == b.name@
    &&& a.description@ == b.description@
}

/// No two registered contracts share an id.
pub open spec fn unique_contracts(contracts: Seq<Contract>) -> bool {
    forall|i: int, j: int|
        0 <= i < contracts.len() && 0 <= j < contracts.len() && (#[trigger] contracts[i]).id == (
        #[trigger] contracts[j]).id ==> i == j
}

// ---------------------------------------------------------------------------
// Allocations and balances
// ---------------------------------------------------------------------------

/// The spendable balance of a contract: the sum of its allocations.
pub open spec fn balance_of(allocations: Seq<Allocation>, contract: Hash256) -> nat
    decreases allocations.len(),
{
    if allocations.len() == 0 {
        0
    } else {
        balance_of(allocations.drop_last(), contract) + if allocations.last().contract
            == contract {
            allocations.last().amount as nat
        } else {
            0
        }
    }
}

/// Whether one of the inputs names this output.
pub open spec fn spends(inputs: Seq<Spend>, outpoint: OutPoint) -> bool {
    exists|k: int| 0 <= k < inputs.len() && (#[trigger] inputs[k]).outpoint == outpoint
}

/// Whether a transition of `contract` with these inputs consumes the allocation.
pub open spec fn consumed_by(a: Allocation, contract: Hash256, inputs: Seq<Spend>) -> bool {
    a.contract == contract && spends(inputs, a.outpoint)
}

/// The allocations that the transition leaves untouched, in their order.
pub open spec fn kept(allocations: Seq<Allocation>, contract: Hash256, inputs: Seq<Spend>) -> Seq<
    Allocation,
>
    decreases allocations.len(),
{
    if allocations.len() == 0 {
        Seq::<Allocation>::empty()
    } else if consumed_by(allocations.last(), contract, inputs) {
        kept(allocations.drop_last(), contract, inputs)
    } else {
        kept(allocations.drop_last(), contract, inputs).push(allocations.last())
    }
}

/// The total of the allocations that the transition consumes.
pub open spec fn taken_amount(
    allocations: Seq<Allocation>,
    contract: Hash256,
    inputs: Seq<Spend>,
) -> nat
    decreases allocations.len(),
{
    if allocations.len() == 0 {
        0
    } else {
        taken_amount(allocations.drop_last(), contract, inputs) + if consumed_by(
            allocations.last(),
            contract,
            inputs,
        ) {
            allocations.last().amount as nat
        } else {
            0
        }
    }
}

/// Whether the transition consumes any of the allocations: whether their holder is its sender.
pub open spec fn holds_any(
    allocations: Seq<Allocation>,
    contract: Hash256,
    inputs: Seq<Spend>,
) -> bool {
    exists|i: int|
        0 <= i < allocations.len() && consumed_by(#[trigger] allocations[i], contract, inputs)
}

/// Whether an allocation of the contract sits on this output.
pub open spec fn holds_at(allocations: Seq<Allocation>, contract: Hash256, outpoint: OutPoint) -> bool {
    exists|i: int|
        0 <= i < allocations.len() && (#[trigger] allocations[i]).contract == contract
            && allocations[i].outpoint == outpoint
}

/// The total of the contract's allocations on this output.
pub open spec fn held_at(allocations: Seq<Allocation>, contract: Hash256, outpoint: OutPoint) -> nat
    decreases allocations.len(),
{
    if allocations.len() == 0 {
        0
    } else {
        held_at(allocations.drop_last(), contract, outpoint) + if allocations.last().contract
            == contract && allocations.last().outpoint == outpoint {
            allocations.last().amount as nat
        } else {
            0
        }
    }
}

/// An input agrees with the ledger if the holder has nothing on that output,
/// or exactly the amount that the input claims.
pub open spec fn input_matches(allocations: Seq<Allocation>, contract: Hash256, s: Spend) -> bool {
    holds_at(allocations, contract, s.outpoint) ==> held_at(allocations, contract, s.outpoint)
        == s.amount
}

/// Every input agrees with the ledger.
pub open spec fn inputs_match(
    allocations: Seq<Allocation>,
    contract: Hash256,
    inputs: Seq<Spend>,
) -> bool {
    forall|k: int| 0 <= k < inputs.len() ==> input_matches(allocations, contract, #[trigger] inputs[k])
}

/// No output occurs twice among the inputs.
pub open spec fn distinct(inputs: Seq<Spend>) -> bool {
    forall|i: int, j: int|
        0 <= i < j < inputs.len() ==> (#[trigger] inputs[i]).outpoint != (
        #[trigger] inputs[j]).outpoint
}

/// Whether the log of consumed outputs holds this output for this contract.
pub open spec fn is_spent(spent: Seq<SpentSeal>, contract: Hash256, outpoint: OutPoint) -> bool {
    exists|j: int| 0 <= j < spent.len() && #[trigger] spent[j] == (SpentSeal { contract, outpoint })
}

/// Whether an earlier transfer consumed one of the inputs.
pub open spec fn already_spent(spent: Seq<SpentSeal>, contract: Hash256, inputs: Seq<Spend>) -> bool {
    exists|k: int|
        0 <= k < inputs.len() && is_spent(spent, contract, (#[trigger] inputs[k]).outpoint)
}

/// The log of consumed outputs after a transition: the inputs are added at the end.
pub open spec fn spent_after(spent: Seq<SpentSeal>, contract: Hash256, inputs: Seq<Spend>) -> Seq<
    SpentSeal,
> {
    spent + Seq::new(
        inputs.len(),
        |k: int| SpentSeal { contract, outpoint: inputs[k].outpoint },
    )
}

// ---------------------------------------------------------------------------
// Seals and credits
// ---------------------------------------------------------------------------

/// Whether the seal was handed out.
pub open spec fn has_seal(seals: Seq<SealRecord>, seal: Seal) -> bool {
    exists|i: int| 0 <= i < seals.len() && (#[trigger] seals[i]).seal == seal
}

/// The position of the record of a seal.
pub open spec fn seal_index(seals: Seq<SealRecord>, seal: Seal) -> int {
    choose|i: int| 0 <= i < seals.len() && (#[trigger] seals[i]).seal == seal
}

/// Whether the seal was handed out and still waits for its transfer.
pub open spec fn open_seal(seals: Seq<SealRecord>, seal: Seal) -> bool {
    has_seal(seals, seal) && seals[seal_index(seals, seal)].open
}

/// Whether an invoice still stands: its seal has not been paid, and its
/// deadline, if it has one, has not passed.
pub open spec fn invoice_stands(seals: Seq<SealRecord>, invoice: Invoice, now: u64) -> bool {
    &&& has_seal(seals, invoice.seal) ==> seals[seal_index(seals, invoice.seal)].open
    &&& invoice.expire_at matches Some(deadline) ==> now < deadline
}

/// No seal was recorded twice.
pub open spec fn unique_seals(seals: Seq<SealRecord>) -> bool {
    forall|i: int, j: int|
        0 <= i < seals.len() && 0 <= j < seals.len() && (#[trigger] seals[i]).seal == (
        #[trigger] seals[j]).seal ==> i == j
}

/// The allocation that an assignment gives this identity, if it gives one.
///
/// A blinded seal is credited to whoever holds it open, on the output it
/// hides. An output of the anchoring transaction is credited to the sender.
pub open spec fn credit(
    a: Assignment,
    contract: Hash256,
    anchor: Hash256,
    seals: Seq<SealRecord>,
    sender: bool,
) -> Option<Allocation> {
    match a.target {
        SealTarget::Blinded(seal) => if open_seal(seals, seal) {
            Some(
                Allocation {
                    contract,
                    outpoint: seals[seal_index(seals, seal)].outpoint,
                    amount: a.amount,
                    seal: Some(seal),
                },
            )
        } else {
            None
        },
        SealTarget::Output(vout) => if sender {
            Some(
                Allocation {
                    contract,
                    outpoint: OutPoint { txid: anchor, vout },
                    amount: a.amount,
                    seal: None,
                },
            )
        } else {
            None
        },
    }
}

/// The allocations that the assignments give this identity, in their order.
pub open spec fn credits(
    outputs: Seq<Assignment>,
    contract: Hash256,
    anchor: Hash256,
    seals: Seq<SealRecord>,
    sender: bool,
) -> Seq<Allocation>
    decreases outputs.len(),
{
    if outputs.len() == 0 {
        Seq::<Allocation>::empty()
    } else {
        let before = credits(outputs.drop_last(), contract, anchor, seals, sender);
        match credit(outputs.last(), contract, anchor, seals, sender) {
            Some(a) => before.push(a),
            None => before,
        }
    }
}

/// Whether one of the assignments goes to this seal.
pub open spec fn targeted(outputs: Seq<Assignment>, seal: Seal) -> bool {
    exists|k: int|
        0 <= k < outputs.len() && (#[trigger] outputs[k]).target == SealTarget::Blinded(seal)
}

/// The seal records after a transition: a seal that it pays is closed.
pub open spec fn sealed_after(seals: Seq<SealRecord>, outputs: Seq<Assignment>) -> Seq<SealRecord> {
    Seq::new(
        seals.len(),
        |i: int|
            SealRecord {
                seal: seals[i].seal,
                outpoint: seals[i].outpoint,
                blinding: seals[i].blinding,
                open: seals[i].open && !targeted(outputs, seals[i].seal),
            },
    )
}

// ---------------------------------------------------------------------------
// The transfer log and the queue of pending consignments
// ---------------------------------------------------------------------------

/// Whether the log has an entry for this consignment.
pub open spec fn logged(transfers: Seq<TransferRecord>, id: Hash256) -> bool {
    exists|i: int| 0 <= i < transfers.len() && (#[trigger] transfers[i]).id == id
}

/// The position of the log entry of this consignment.
pub open spec fn log_index(transfers: Seq<TransferRecord>, id: Hash256) -> int {
    choose|i: int| 0 <= i < transfers.len() && (#[trigger] transfers[i]).id == id
}

/// No consignment has two log entries.
pub open spec fn unique_log(transfers: Seq<TransferRecord>) -> bool {
    forall|i: int, j: int|
        0 <= i < transfers.len() && 0 <= j < transfers.len() && (#[trigger] transfers[i]).id == (
        #[trigger] transfers[j]).id ==> i == j
}

/// The log with the entry of a consignment set: replaced where it has one, added at the end otherwise.
pub open spec fn upsert(transfers: Seq<TransferRecord>, record: TransferRecord) -> Seq<
    TransferRecord,
> {
    if logged(transfers, record.id) {
        transfers.update(log_index(transfers, record.id), record)
    } else {
        transfers.push(record)
    }
}

/// Whether the log says that this consignment was accepted.
pub open spec fn is_accepted(transfers: Seq<TransferRecord>, id: Hash256) -> bool {
    logged(transfers, id) && transfers[log_index(transfers, id)].status == TransferStatus::Accepted
}

/// Whether a consignment with this id waits in the queue.
pub open spec fn queued(pending: Seq<ConsignmentData>, id: Hash256) -> bool {
    exists|i: int| 0 <= i < pending.len() && (#[trigger] pending[i]).id == id
}

/// The position in the queue of the consignment with this id.
pub open spec fn queue_index(pending: Seq<ConsignmentData>, id: Hash256) -> int {
    choose|i: int| 0 <= i < pending.len() && (#[trigger] pending[i]).id == id
}

/// No consignment waits twice.
pub open spec fn unique_queue(pending: Seq<ConsignmentData>) -> bool {
    forall|i: int, j: int|
        0 <= i < pending.len() && 0 <= j < pending.len() && (#[trigger] pending[i]).id == (
        #[trigger] pending[j]).id ==> i == j
}

/// The queue with a consignment added at the end, unless one with its id already waits.
pub open spec fn enqueue(pending: Seq<ConsignmentData>, c: ConsignmentData) -> Seq<
    ConsignmentData,
> {
    if queued(pending, c.id) {
        pending
    } else {
        pending.push(c)
    }
}

/// The queue without the consignment with this id.
pub open spec fn unqueue(pending: Seq<ConsignmentData>, id: Hash256) -> Seq<ConsignmentData> {
    if queued(pending, id) {
        pending.remove(queue_index(pending, id))
    } else {
        pending
    }
}

// ---------------------------------------------------------------------------
// Validation and acceptance
// ---------------------------------------------------------------------------

impl LedgerState {
    /// The state of a watcher that has seen nothing yet.
    pub open spec fn empty(identity: Hash256) -> LedgerState {
        LedgerState {
            identity,
            contracts: Seq::empty(),
            allocations: Seq::empty(),
            seals: Seq::empty(),
            invoices: Seq::empty(),
            transfers: Seq::empty(),
            pending: Seq::empty(),
            spent: Seq::empty(),
        }
    }

    /// The invariant of the ledger.
    ///
    /// Ids are unique in each collection; every allocation belongs to a
    /// registered contract; no balance exceeds its contract's total supply.
    pub open spec fn wf(self) -> bool {
        &&& unique_contracts(self.contracts)
        &&& unique_seals(self.seals)
        &&& unique_log(self.transfers)
        &&& unique_queue(self.pending)
        &&& forall|i: int|
            0 <= i < self.allocations.len() ==> knows(
                self.contracts,
                (#[trigger] self.allocations[i]).contract,
            )
        &&& forall|i: int|
            0 <= i < self.contracts.len() ==> balance_of(
                self.allocations,
                (#[trigger] self.contracts[i]).id,
            ) <= self.contracts[i].supply
    }

    /// The spendable balance of a contract.
    pub open spec fn balance(self, contract: Hash256) -> nat {
        balance_of(self.allocations, contract)
    }

    /// What this identity knows of a registered contract.
    pub open spec fn record(self, contract: Hash256) -> ContractRecord {
        ContractRecord {
            contract: contract_of(self.contracts, contract),
            balance: self.balance(contract) as u64,
        }
    }

    /// The ledger after an import: a contract whose id is new is registered;
    /// any other import changes nothing.
    pub open spec fn imported(self, contract: Contract) -> LedgerState {
        if knows(self.contracts, contract.id) {
            self
        } else {
            LedgerState { contracts: self.contracts.push(contract), ..self }
        }
    }

    /// Whether this identity is the sender of the consignment: whether it holds one of its inputs.
    pub open spec fn sends(self, c: ConsignmentData) -> bool {
        holds_any(self.allocations, c.contract, c.inputs)
    }

    /// What the consignment gives this identity.
    pub open spec fn credits_of(self, c: ConsignmentData) -> Seq<Allocation> {
        credits(c.outputs, c.contract, c.anchor, self.seals, self.sends(c))
    }

    /// The balance of the consignment's contract after the transfer.
    pub open spec fn balance_after(self, c: ConsignmentData) -> int {
        balance_of(self.allocations, c.contract) - taken_amount(
            self.allocations,
            c.contract,
            c.inputs,
        ) + balance_of(self.credits_of(c), c.contract)
    }

    /// The verdict on a consignment. The checks are made in this order, and
    /// the first that fails gives the reason.
    pub open spec fn validation_reason(self, c: ConsignmentData, anchor: AnchorStatus) -> Reason {
        if !knows(self.contracts, c.contract) {
            Reason::UnknownContract
        } else if !c.committed() {
            Reason::CommitmentMismatch
        } else if !balanced(c.inputs, c.outputs) {
            Reason::Unbalanced
        } else if !distinct(c.inputs) || already_spent(self.spent, c.contract, c.inputs) {
            Reason::DoubleSpend
        } else if !inputs_match(self.allocations, c.contract, c.inputs) {
            Reason::InputMismatch
        } else if anchor is Unknown {
            Reason::AnchorUnconfirmed
        } else if self.balance_after(c) > contract_of(self.contracts, c.contract).supply {
            Reason::ExceedsSupply
        } else {
            Reason::Valid
        }
    }

    /// The ledger after a valid consignment was applied.
    pub open spec fn applied(self, c: ConsignmentData) -> LedgerState {
        LedgerState {
            identity: self.identity,
            contracts: self.contracts,
            allocations: kept(self.allocations, c.contract, c.inputs) + self.credits_of(c),
            seals: sealed_after(self.seals, c.outputs),
            invoices: self.invoices,
            transfers: upsert(
                self.transfers,
                TransferRecord { id: c.id, status: TransferStatus::Accepted, reason: Reason::Valid },
            ),
            pending: unqueue(self.pending, c.id),
            spent: spent_after(self.spent, c.contract, c.inputs),
        }
    }

    /// The ledger after a consignment was turned down for `reason`.
    ///
    /// Allocations, seals and the log of consumed outputs stay as they are.
    /// A consignment whose anchor is not yet seen waits in the queue; any
    /// other leaves it.
    pub open spec fn refused(self, c: ConsignmentData, reason: Reason) -> LedgerState {
        LedgerState {
            identity: self.identity,
            contracts: self.contracts,
            allocations: self.allocations,
            seals: self.seals,
            invoices: self.invoices,
            transfers: upsert(
                self.transfers,
                TransferRecord {
                    id: c.id,
                    status: if reason == Reason::AnchorUnconfirmed {
                        TransferStatus::Pending
                    } else {
                        TransferStatus::Rejected
                    },
                    reason,
                },
            ),
            pending: if reason == Reason::AnchorUnconfirmed {
                enqueue(self.pending, c)
            } else {
                unqueue(self.pending, c.id)
            },
            spent: self.spent,
        }
    }

    /// The ledger after `accept_transfer`.
    ///
    /// A consignment whose id does not commit to its content leaves no trace:
    /// the id is not its own, and nothing is logged under it.
    pub open spec fn accepted(self, c: ConsignmentData, anchor: AnchorStatus) -> LedgerState {
        if !c.committed() || is_accepted(self.transfers, c.id) {
            self
        } else if self.validation_reason(c, anchor) == Reason::Valid {
            self.applied(c)
        } else {
            self.refused(c, self.validation_reason(c, anchor))
        }
    }

    /// What `accept_transfer` answers.
    ///
    /// A consignment that was accepted before is answered as before; a
    /// forgery that bears its id is not.
    pub open spec fn acceptance(self, c: ConsignmentData, anchor: AnchorStatus) -> ValidationResult {
        if c.committed() && is_accepted(self.transfers, c.id) {
            ValidationResult { valid: true, reason: Reason::Valid }
        } else {
            ValidationResult {
                valid: self.validation_reason(c, anchor) == Reason::Valid,
                reason: self.validation_reason(c, anchor),
            }
        }
    }
}


// ---------------------------------------------------------------------------
// Facts about balances
// ---------------------------------------------------------------------------

/// The balance over two lists is the sum of the balances over each.
pub proof fn lemma_balance_concat(a: Seq<Allocation>, b: Seq<Allocation>, contract: Hash256)
    ensures
        balance_of(a + b, contract) == balance_of(a, contract) + balance_of(b, contract),
    decreases b.len(),
{
    if b.len() == 0 {
        assert(a + b =~= a);
    } else {
        lemma_balance_concat(a, b.drop_last(), contract);
        assert((a + b).drop_last() =~= a + b.drop_last());
        assert((a + b).last() == b.last());
    }
}

/// What a transition consumes is part of what was there.
pub proof fn lemma_taken_within_balance(
    allocations: Seq<Allocation>,
    contract: Hash256,
    inputs: Seq<Spend>,
)
    ensures
        taken_amount(allocations, contract, inputs) <= balance_of(allocations, contract),
    decreases allocations.len(),
{
    if allocations.len() > 0 {
        lemma_taken_within_balance(allocations.drop_last(), contract, inputs);
    }
}

/// What a transition leaves and what it consumes make up what was there; the
/// balances of other contracts stay as they are.
pub proof fn lemma_kept_balance(
    allocations: Seq<Allocation>,
    contract: Hash256,
    inputs: Seq<Spend>,
    of: Hash256,
)
    ensures
        of == contract ==> balance_of(kept(allocations, contract, inputs), of) + taken_amount(
            allocations,
            contract,
            inputs,
        ) == balance_of(allocations, of),
        of != contract ==> balance_of(kept(allocations, contract, inputs), of) == balance_of(
            allocations,
            of,
        ),
    decreases allocations.len(),
{
    if allocations.len() > 0 {
        lemma_kept_balance(allocations.drop_last(), contract, inputs, of);
        if !consumed_by(allocations.last(), contract, inputs) {
            let rest = kept(allocations.drop_last(), contract, inputs);
            assert(rest.push(allocations.last()).drop_last() =~= rest);
        }
    }
}

/// What a transition leaves was there before.
pub proof fn lemma_kept_known(
    allocations: Seq<Allocation>,
    contract: Hash256,
    inputs: Seq<Spend>,
    contracts: Seq<Contract>,
)
    requires
        forall|i: int|
            0 <= i < allocations.len() ==> knows(contracts, (#[trigger] allocations[i]).contract),
    ensures
        forall|i: int|
            0 <= i < kept(allocations, contract, inputs).len() ==> knows(
                contracts,
                (#[trigger] kept(allocations, contract, inputs)[i]).contract,
            ),
    decreases allocations.len(),
{
    if allocations.len() > 0 {
        let front = allocations.drop_last();
        assert forall|i: int| 0 <= i < front.len() implies knows(
            contracts,
            (#[trigger] front[i]).contract,
        ) by {
            assert(front[i] == allocations[i]);
        }
        lemma_kept_known(front, contract, inputs, contracts);
        assert(knows(contracts, allocations[allocations.len() - 1].contract));
    }
}

/// Every credit of a transition is an allocation of its contract.
pub proof fn lemma_credits_contract(
    outputs: Seq<Assignment>,
    contract: Hash256,
    anchor: Hash256,
    seals: Seq<SealRecord>,
    sender: bool,
)
    ensures
        forall|i: int|
            0 <= i < credits(outputs, contract, anchor, seals, sender).len() ==> (
            #[trigger] credits(outputs, contract, anchor, seals, sender)[i]).contract == contract,
    decreases outputs.len(),
{
    if outputs.len() > 0 {
        lemma_credits_contract(outputs.drop_last(), contract, anchor, seals, sender);
    }
}

/// A list of allocations of one contract adds nothing to the balance of another.
pub proof fn lemma_balance_of_others(allocations: Seq<Allocation>, contract: Hash256, of: Hash256)
    requires
        of != contract,
        forall|i: int|
            0 <= i < allocations.len() ==> (#[trigger] allocations[i]).contract == contract,
    ensures
        balance_of(allocations, of) == 0,
    decreases allocations.len(),
{
    if allocations.len() > 0 {
        let front = allocations.drop_last();
        assert forall|i: int| 0 <= i < front.len() implies (#[trigger] front[i]).contract
            == contract by {
            assert(front[i] == allocations[i]);
        }
        lemma_balance_of_others(front, contract, of);
        assert(allocations[allocations.len() - 1].contract == contract);
    }
}

/// A holder of none of the inputs loses nothing to the transition.
pub proof fn lemma_nothing_taken(allocations: Seq<Allocation>, contract: Hash256, inputs: Seq<Spend>)
    requires
        !holds_any(allocations, contract, inputs),
    ensures
        taken_amount(allocations, contract, inputs) == 0,
        kept(allocations, contract, inputs) == allocations,
    decreases allocations.len(),
{
    if allocations.len() > 0 {
        let front = allocations.drop_last();
        assert(!holds_any(front, contract, inputs)) by {
            if holds_any(front, contract, inputs) {
                let i = choose|i: int|
                    0 <= i < front.len() && consumed_by(#[trigger] front[i], contract, inputs);
                assert(consumed_by(allocations[i], contract, inputs));
            }
        }
        lemma_nothing_taken(front, contract, inputs);
        assert(!consumed_by(allocations[allocations.len() - 1], contract, inputs));
        assert(front.push(allocations.last()) =~= allocations);
    } else {
        assert(kept(allocations, contract, inputs) =~= allocations);
    }
}

/// Taking one more input, on an output that no earlier input names, takes
/// what is held on that output on top of what the earlier inputs take.
pub proof fn lemma_taken_step(allocations: Seq<Allocation>, contract: Hash256, inputs: Seq<Spend>)
    requires
        inputs.len() > 0,
        !spends(inputs.drop_last(), inputs.last().outpoint),
    ensures
        taken_amount(allocations, contract, inputs) == taken_amount(
            allocations,
            contract,
            inputs.drop_last(),
        ) + held_at(allocations, contract, inputs.last().outpoint),
    decreases allocations.len(),
{
    if allocations.len() > 0 {
        lemma_taken_step(allocations.drop_last(), contract, inputs);
        let a = allocations.last();
        let front = inputs.drop_last();
        if spends(front, a.outpoint) {
            let k = choose|k: int| 0 <= k < front.len() && (#[trigger] front[k]).outpoint == a.outpoint;
            assert(inputs[k].outpoint == a.outpoint);
            assert(spends(inputs, a.outpoint));
            assert(a.outpoint != inputs.last().outpoint);
        } else if a.outpoint == inputs.last().outpoint {
            assert(inputs[inputs.len() - 1].outpoint == a.outpoint);
            assert(spends(inputs, a.outpoint));
        } else {
            if spends(inputs, a.outpoint) {
                let k = choose|k: int|
                    0 <= k < inputs.len() && (#[trigger] inputs[k]).outpoint == a.outpoint;
                assert(k < inputs.len() - 1);
                assert(front[k].outpoint == a.outpoint);
            }
        }
    }
}

/// A holder of every input, each with the amount it claims, loses exactly the
/// total of the inputs.
pub proof fn lemma_taken_is_spent(allocations: Seq<Allocation>, contract: Hash256, inputs: Seq<Spend>)
    requires
        distinct(inputs),
        inputs_match(allocations, contract, inputs),
        forall|k: int|
            0 <= k < inputs.len() ==> holds_at(allocations, contract, (#[trigger] inputs[k]).outpoint),
    ensures
        taken_amount(allocations, contract, inputs) == spent_total(inputs),
    decreases inputs.len(),
{
    if inputs.len() == 0 {
        lemma_no_inputs_take_nothing(allocations, contract, inputs);
    } else {
        let front = inputs.drop_last();
        assert forall|k: int| 0 <= k < front.len() implies input_matches(
            allocations,
            contract,
            #[trigger] front[k],
        ) by {
            assert(front[k] == inputs[k]);
        }
        assert forall|k: int| 0 <= k < front.len() implies holds_at(
            allocations,
            contract,
            (#[trigger] front[k]).outpoint,
        ) by {
            assert(front[k] == inputs[k]);
        }
        assert(distinct(front)) by {
            assert forall|i: int, j: int| 0 <= i < j < front.len() implies (
            #[trigger] front[i]).outpoint != (#[trigger] front[j]).outpoint by {
                assert(front[i] == inputs[i] && front[j] == inputs[j]);
            }
        }
        lemma_taken_is_spent(allocations, contract, front);
        assert(!spends(front, inputs.last().outpoint)) by {
            if spends(front, inputs.last().outpoint) {
                let k = choose|k: int|
                    0 <= k < front.len() && (#[trigger] front[k]).outpoint == inputs.last().outpoint;
                assert(front[k] == inputs[k]);
                assert(inputs[k].outpoint != inputs[inputs.len() - 1].outpoint);
            }
        }
        lemma_taken_step(allocations, contract, inputs);
        assert(input_matches(allocations, contract, inputs[inputs.len() - 1]));
        assert(holds_at(allocations, contract, inputs[inputs.len() - 1].outpoint));
    }
}

/// A transition without inputs consumes nothing.
pub proof fn lemma_no_inputs_take_nothing(
    allocations: Seq<Allocation>,
    contract: Hash256,
    inputs: Seq<Spend>,
)
    requires
        inputs.len() == 0,
    ensures
        taken_amount(allocations, contract, inputs) == 0,
    decreases allocations.len(),
{
    if allocations.len() > 0 {
        lemma_no_inputs_take_nothing(allocations.drop_last(), contract, inputs);
    }
}

/// A sender who holds none of the blinded seals is credited what returns on
/// outputs of the anchoring transaction.
pub proof fn lemma_sender_credits(
    outputs: Seq<Assignment>,
    contract: Hash256,
    anchor: Hash256,
    seals: Seq<SealRecord>,
)
    requires
        forall|k: int|
            0 <= k < outputs.len() ==> ((#[trigger] outputs[k]).target matches SealTarget::Blinded(
                seal,
            ) ==> !open_seal(seals, seal)),
    ensures
        balance_of(credits(outputs, contract, anchor, seals, true), contract) == returned_total(
            outputs,
        ),
    decreases outputs.len(),
{
    if outputs.len() > 0 {
        let front = outputs.drop_last();
        assert forall|k: int| 0 <= k < front.len() implies ((#[trigger] front[k]).target matches SealTarget::Blinded(
            seal,
        ) ==> !open_seal(seals, seal)) by {
            assert(front[k] == outputs[k]);
        }
        lemma_sender_credits(front, contract, anchor, seals);
        let last = outputs[outputs.len() - 1];
        let before = credits(front, contract, anchor, seals, true);
        match credit(last, contract, anchor, seals, true) {
            Some(a) => {
                assert(before.push(a).drop_last() =~= before);
            },
            None => {},
        }
    }
}

/// A receiver who holds every blinded seal open, and none of the inputs, is
/// credited what goes to blinded seals.
pub proof fn lemma_receiver_credits(
    outputs: Seq<Assignment>,
    contract: Hash256,
    anchor: Hash256,
    seals: Seq<SealRecord>,
)
    requires
        forall|k: int|
            0 <= k < outputs.len() ==> ((#[trigger] outputs[k]).target matches SealTarget::Blinded(
                seal,
            ) ==> open_seal(seals, seal)),
    ensures
        balance_of(credits(outputs, contract, anchor, seals, false), contract) == blinded_total(
            outputs,
        ),
    decreases outputs.len(),
{
    if outputs.len() > 0 {
        let front = outputs.drop_last();
        assert forall|k: int| 0 <= k < front.len() implies ((#[trigger] front[k]).target matches SealTarget::Blinded(
            seal,
        ) ==> open_seal(seals, seal)) by {
            assert(front[k] == outputs[k]);
        }
        lemma_receiver_credits(front, contract, anchor, seals);
        let last = outputs[outputs.len() - 1];
        let before = credits(front, contract, anchor, seals, false);
        match credit(last, contract, anchor, seals, false) {
            Some(a) => {
                assert(before.push(a).drop_last() =~= before);
            },
            None => {},
        }
    }
}

// ---------------------------------------------------------------------------
// Facts about the log and the queue
// ---------------------------------------------------------------------------

/// Setting an entry keeps the log free of doubles, and the entry is then what was set.
pub proof fn lemma_upsert(transfers: Seq<TransferRecord>, record: TransferRecord)
    requires
        unique_log(transfers),
    ensures
        unique_log(upsert(transfers, record)),
        logged(upsert(transfers, record), record.id),
        upsert(transfers, record)[log_index(upsert(transfers, record), record.id)] == record,
        upsert(upsert(transfers, record), record) == upsert(transfers, record),
{
    let after = upsert(transfers, record);
    if logged(transfers, record.id) {
        let i = log_index(transfers, record.id);
        assert(after[i].id == record.id);
        assert forall|a: int, b: int|
            0 <= a < after.len() && 0 <= b < after.len() && (#[trigger] after[a]).id == (
            #[trigger] after[b]).id implies a == b by {
            assert(transfers[a].id == after[a].id);
            assert(transfers[b].id == after[b].id);
        }
        let j = log_index(after, record.id);
        assert(transfers[j].id == after[j].id);
        assert(i == j);
        assert(upsert(after, record) =~= after);
    } else {
        let n = transfers.len() as int;
        assert(after[n].id == record.id);
        assert forall|a: int, b: int|
            0 <= a < after.len() && 0 <= b < after.len() && (#[trigger] after[a]).id == (
            #[trigger] after[b]).id implies a == b by {
            if a < n {
                assert(transfers[a].id == after[a].id);
            }
            if b < n {
                assert(transfers[b].id == after[b].id);
            }
        }
        let j = log_index(after, record.id);
        if j < n {
            assert(transfers[j].id == record.id);
        }
        assert(upsert(after, record) =~= after);
    }
}

/// Adding to the queue keeps it free of doubles; adding again changes nothing.
pub proof fn lemma_enqueue(pending: Seq<ConsignmentData>, c: ConsignmentData)
    requires
        unique_queue(pending),
    ensures
        unique_queue(enqueue(pending, c)),
        queued(enqueue(pending, c), c.id),
        enqueue(enqueue(pending, c), c) == enqueue(pending, c),
{
    let after = enqueue(pending, c);
    if !queued(pending, c.id) {
        let n = pending.len() as int;
        assert(after[n].id == c.id);
        assert forall|a: int, b: int|
            0 <= a < after.len() && 0 <= b < after.len() && (#[trigger] after[a]).id == (
            #[trigger] after[b]).id implies a == b by {
            if a < n {
                assert(pending[a].id == after[a].id);
            }
            if b < n {
                assert(pending[b].id == after[b].id);
            }
        }
    }
}

/// Taking from the queue keeps it free of doubles, and the consignment is
/// then gone; taking again changes nothing.
pub proof fn lemma_unqueue(pending: Seq<ConsignmentData>, id: Hash256)
    requires
        unique_queue(pending),
    ensures
        unique_queue(unqueue(pending, id)),
        !queued(unqueue(pending, id), id),
        unqueue(unqueue(pending, id), id) == unqueue(pending, id),
{
    let after = unqueue(pending, id);
    if queued(pending, id) {
        let i = queue_index(pending, id);
        assert forall|a: int, b: int|
            0 <= a < after.len() && 0 <= b < after.len() && (#[trigger] after[a]).id == (
            #[trigger] after[b]).id implies a == b by {
            let pa = if a < i { a } else { a + 1 };
            let pb = if b < i { b } else { b + 1 };
            assert(after[a] == pending[pa]);
            assert(after[b] == pending[pb]);
        }
        assert forall|a: int| 0 <= a < after.len() implies (#[trigger] after[a]).id != id by {
            let pa = if a < i { a } else { a + 1 };
            assert(after[a] == pending[pa]);
        }
    }
}

// ---------------------------------------------------------------------------
// The ledger's invariant is kept
// ---------------------------------------------------------------------------

/// In a well-formed ledger the registered contract with an id is the one at
/// any position that holds this id.
pub proof fn lemma_contract_at(contracts: Seq<Contract>, i: int)
    requires
        unique_contracts(contracts),
        0 <= i < contracts.len(),
    ensures
        knows(contracts, contracts[i].id),
        contract_index(contracts, contracts[i].id) == i,
        contract_of(contracts, contracts[i].id) == contracts[i],
{
    let id = contracts[i].id;
    assert(knows(contracts, id));
    let j = contract_index(contracts, id);
    assert(contracts[j].id == contracts[i].id);
}

/// Closing seals keeps the records free of doubles.
pub proof fn lemma_sealed_after_unique(seals: Seq<SealRecord>, outputs: Seq<Assignment>)
    requires
        unique_seals(seals),
    ensures
        unique_seals(sealed_after(seals, outputs)),
{
    let after = sealed_after(seals, outputs);
    assert forall|a: int, b: int|
        0 <= a < after.len() && 0 <= b < after.len() && (#[trigger] after[a]).seal == (
        #[trigger] after[b]).seal implies a == b by {
        assert(seals[a].seal == after[a].seal);
        assert(seals[b].seal == after[b].seal);
    }
}

/// A seal is consumed once: a seal that a transfer pays is closed afterwards,
/// and a seal that is closed stays closed.
pub proof fn lemma_paid_seals_close(seals: Seq<SealRecord>, outputs: Seq<Assignment>, seal: Seal)
    requires
        unique_seals(seals),
    ensures
        targeted(outputs, seal) ==> !open_seal(sealed_after(seals, outputs), seal),
        !open_seal(seals, seal) ==> !open_seal(sealed_after(seals, outputs), seal),
{
    let after = sealed_after(seals, outputs);
    lemma_sealed_after_unique(seals, outputs);
    if has_seal(after, seal) {
        let j = seal_index(after, seal);
        assert(seals[j].seal == after[j].seal);
        assert(has_seal(seals, seal));
        let i = seal_index(seals, seal);
        assert(seals[i].seal == seals[j].seal);
    }
}

impl LedgerState {
    /// An import that succeeded, made again with the same definition,
    /// succeeds again: it answers with the same record and changes nothing.
    /// A definition never changes after it was registered.
    pub proof fn lemma_import_again(self, contract: Contract, again: Contract)
        requires
            self.wf(),
            import_spec(self, contract) is Ok,
            same_definition(contract, again),
        ensures
            import_spec(self.imported(contract), again) == import_spec(self, contract),
            self.imported(contract).imported(again) == self.imported(contract),
            same_definition(self.imported(contract).record(contract.id).contract, contract),
    {
        let after = self.imported(contract);
        if !knows(self.contracts, contract.id) {
            let n = self.contracts.len() as int;
            assert(after.contracts[n] == contract);
            assert(knows(after.contracts, contract.id));
            let j = contract_index(after.contracts, contract.id);
            if j < n {
                assert(self.contracts[j].id == contract.id);
            }
        }
    }

    /// Applying a consignment that validation passed keeps the ledger well formed.
    pub proof fn lemma_applied_wf(self, c: ConsignmentData, anchor: AnchorStatus)
        requires
            self.wf(),
            self.validation_reason(c, anchor) == Reason::Valid,
        ensures
            self.applied(c).wf(),
            self.applied(c).balance(c.contract) == self.balance_after(c),
            forall|of: Hash256|
                of != c.contract ==> #[trigger] self.applied(c).balance(of) == self.balance(of),
    {
        let after = self.applied(c);
        let rest = kept(self.allocations, c.contract, c.inputs);
        let gain = self.credits_of(c);
        lemma_sealed_after_unique(self.seals, c.outputs);
        lemma_upsert(
            self.transfers,
            TransferRecord { id: c.id, status: TransferStatus::Accepted, reason: Reason::Valid },
        );
        lemma_unqueue(self.pending, c.id);
        lemma_kept_known(self.allocations, c.contract, c.inputs, self.contracts);
        lemma_credits_contract(c.outputs, c.contract, c.anchor, self.seals, self.sends(c));
        assert forall|i: int| 0 <= i < after.allocations.len() implies knows(
            after.contracts,
            (#[trigger] after.allocations[i]).contract,
        ) by {
            if i < rest.len() {
                assert(after.allocations[i] == rest[i]);
            } else {
                assert(after.allocations[i] == gain[i - rest.len()]);
            }
        }
        lemma_balance_concat(rest, gain, c.contract);
        lemma_kept_balance(self.allocations, c.contract, c.inputs, c.contract);
        assert forall|of: Hash256| of != c.contract implies #[trigger] after.balance(of)
            == self.balance(of) by {
            lemma_balance_concat(rest, gain, of);
            lemma_kept_balance(self.allocations, c.contract, c.inputs, of);
            lemma_balance_of_others(gain, c.contract, of);
        }
        assert forall|i: int| 0 <= i < after.contracts.len() implies balance_of(
            after.allocations,
            (#[trigger] after.contracts[i]).id,
        ) <= after.contracts[i].supply by {
            let of = self.contracts[i].id;
            if of == c.contract {
                lemma_contract_at(self.contracts, i);
            } else {
                assert(after.balance(of) == self.balance(of));
            }
        }
    }

    /// Turning a consignment down keeps the ledger well formed and every balance as it is.
    pub proof fn lemma_refused_wf(self, c: ConsignmentData, reason: Reason)
        requires
            self.wf(),
        ensures
            self.refused(c, reason).wf(),
            forall|of: Hash256| #[trigger] self.refused(c, reason).balance(of) == self.balance(of),
    {
        lemma_upsert(
            self.transfers,
            TransferRecord {
                id: c.id,
                status: if reason == Reason::AnchorUnconfirmed {
                    TransferStatus::Pending
                } else {
                    TransferStatus::Rejected
                },
                reason,
            },
        );
        lemma_enqueue(self.pending, c);
        lemma_unqueue(self.pending, c.id);
    }

    /// Accepting a transfer keeps the ledger well formed, whatever the verdict.
    pub proof fn lemma_accepted_wf(self, c: ConsignmentData, anchor: AnchorStatus)
        requires
            self.wf(),
        ensures
            self.accepted(c, anchor).wf(),
    {
        if !c.committed() || is_accepted(self.transfers, c.id) {
        } else if self.validation_reason(c, anchor) == Reason::Valid {
            self.lemma_applied_wf(c, anchor);
        } else {
            self.lemma_refused_wf(c, self.validation_reason(c, anchor));
        }
    }

    /// Acceptance is idempotent: accepting a consignment a second time leaves
    /// the ledger as the first time left it, and gives the same verdict.
    pub proof fn lemma_accept_idempotent(self, c: ConsignmentData, anchor: AnchorStatus)
        requires
            self.wf(),
        ensures
            self.accepted(c, anchor).accepted(c, anchor) == self.accepted(c, anchor),
            self.accepted(c, anchor).acceptance(c, anchor).valid == self.acceptance(c, anchor).valid,
    {
        let once = self.accepted(c, anchor);
        if !c.committed() || is_accepted(self.transfers, c.id) {
        } else if self.validation_reason(c, anchor) == Reason::Valid {
            lemma_upsert(
                self.transfers,
                TransferRecord { id: c.id, status: TransferStatus::Accepted, reason: Reason::Valid },
            );
            assert(is_accepted(once.transfers, c.id));
        } else {
            let reason = self.validation_reason(c, anchor);
            let record = TransferRecord {
                id: c.id,
                status: if reason == Reason::AnchorUnconfirmed {
                    TransferStatus::Pending
                } else {
                    TransferStatus::Rejected
                },
                reason,
            };
            lemma_upsert(self.transfers, record);
            lemma_enqueue(self.pending, c);
            lemma_unqueue(self.pending, c.id);
            assert(!is_accepted(once.transfers, c.id));
            assert(once.validation_reason(c, anchor) == reason);
            assert(once.refused(c, reason).transfers == once.transfers);
            assert(once.refused(c, reason).pending == once.pending);
        }
    }

    /// Balance conservation, the sender's side: a sender who holds every
    /// input, and none of the blinded seals that the transfer pays, has
    /// afterwards exactly the amount less that went to blinded seals.
    pub proof fn lemma_sender_balance(self, c: ConsignmentData, anchor: AnchorStatus)
        requires
            self.wf(),
            !is_accepted(self.transfers, c.id),
            self.validation_reason(c, anchor) == Reason::Valid,
            c.inputs.len() > 0,
            forall|k: int|
                0 <= k < c.inputs.len() ==> holds_at(
                    self.allocations,
                    c.contract,
                    (#[trigger] c.inputs[k]).outpoint,
                ),
            forall|k: int|
                0 <= k < c.outputs.len() ==> ((#[trigger] c.outputs[k]).target matches SealTarget::Blinded(
                    seal,
                ) ==> !open_seal(self.seals, seal)),
        ensures
            self.accepted(c, anchor).balance(c.contract) == self.balance(c.contract)
                - blinded_total(c.outputs),
    {
        self.lemma_applied_wf(c, anchor);
        lemma_taken_is_spent(self.allocations, c.contract, c.inputs);
        assert(self.sends(c)) by {
            let o = c.inputs[0].outpoint;
            assert(holds_at(self.allocations, c.contract, o));
            let i = choose|i: int|
                0 <= i < self.allocations.len() && (#[trigger] self.allocations[i]).contract
                    == c.contract && self.allocations[i].outpoint == o;
            assert(spends(c.inputs, self.allocations[i].outpoint));
            assert(consumed_by(self.allocations[i], c.contract, c.inputs));
        }
        lemma_sender_credits(c.outputs, c.contract, c.anchor, self.seals);
        lemma_assigned_split(c.outputs);
    }

    /// Balance conservation, the receiver's side: a receiver who holds none of
    /// the inputs, and every blinded seal that the transfer pays, has
    /// afterwards exactly the amount more that went to blinded seals.
    pub proof fn lemma_receiver_balance(self, c: ConsignmentData, anchor: AnchorStatus)
        requires
            self.wf(),
            !is_accepted(self.transfers, c.id),
            self.validation_reason(c, anchor) == Reason::Valid,
            !self.sends(c),
            forall|k: int|
                0 <= k < c.outputs.len() ==> ((#[trigger] c.outputs[k]).target matches SealTarget::Blinded(
                    seal,
                ) ==> open_seal(self.seals, seal)),
        ensures
            self.accepted(c, anchor).balance(c.contract) == self.balance(c.contract)
                + blinded_total(c.outputs),
    {
        self.lemma_applied_wf(c, anchor);
        lemma_nothing_taken(self.allocations, c.contract, c.inputs);
        lemma_receiver_credits(c.outputs, c.contract, c.anchor, self.seals);
    }

    /// The sender of a sound transfer finds it valid and is left with exactly
    /// what did not go to blinded seals.
    ///
    /// The sender knows the contract, holds every input with the amount it
    /// claims, and holds none of the seals that the transfer pays. No input
    /// occurs twice or was consumed before, the chain has seen the anchor,
    /// and the sender has not accepted the consignment yet.
    pub proof fn lemma_sender_accepts(self, c: ConsignmentData, anchor: AnchorStatus)
        requires
            self.wf(),
            knows(self.contracts, c.contract),
            c.sound(),
            distinct(c.inputs),
            !already_spent(self.spent, c.contract, c.inputs),
            !(anchor is Unknown),
            !is_accepted(self.transfers, c.id),
            c.inputs.len() > 0,
            forall|k: int|
                0 <= k < c.inputs.len() ==> holds_at(
                    self.allocations,
                    c.contract,
                    (#[trigger] c.inputs[k]).outpoint,
                ) && held_at(self.allocations, c.contract, c.inputs[k].outpoint)
                    == c.inputs[k].amount,
            forall|k: int|
                0 <= k < c.outputs.len() ==> ((#[trigger] c.outputs[k]).target matches SealTarget::Blinded(
                    seal,
                ) ==> !open_seal(self.seals, seal)),
        ensures
            self.validation_reason(c, anchor) == Reason::Valid,
            self.acceptance(c, anchor).valid,
            self.accepted(c, anchor).wf(),
            self.accepted(c, anchor).balance(c.contract) == self.balance(c.contract)
                - blinded_total(c.outputs),
    {
        assert(inputs_match(self.allocations, c.contract, c.inputs));
        lemma_taken_is_spent(self.allocations, c.contract, c.inputs);
        assert(self.sends(c)) by {
            let o = c.inputs[0].outpoint;
            assert(holds_at(self.allocations, c.contract, o));
            let i = choose|i: int|
                0 <= i < self.allocations.len() && (#[trigger] self.allocations[i]).contract
                    == c.contract && self.allocations[i].outpoint == o;
            assert(spends(c.inputs, self.allocations[i].outpoint));
            assert(consumed_by(self.allocations[i], c.contract, c.inputs));
        }
        lemma_sender_credits(c.outputs, c.contract, c.anchor, self.seals);
        lemma_assigned_split(c.outputs);
        lemma_contract_at(self.contracts, contract_index(self.contracts, c.contract));
        assert(self.balance_after(c) == self.balance(c.contract) - blinded_total(c.outputs));
        assert(self.validation_reason(c, anchor) == Reason::Valid);
        self.lemma_applied_wf(c, anchor);
    }

    /// The receiver of a sound transfer finds it valid and holds afterwards
    /// exactly what went to blinded seals on top of what was held before.
    ///
    /// The receiver knows the contract, holds every seal that the transfer
    /// pays and none of its inputs, and stays within the contract's supply.
    /// No input occurs twice or was consumed before, the chain has seen the
    /// anchor, and the receiver has not accepted the consignment yet.
    pub proof fn lemma_receiver_accepts(self, c: ConsignmentData, anchor: AnchorStatus)
        requires
            self.wf(),
            knows(self.contracts, c.contract),
            c.sound(),
            distinct(c.inputs),
            !already_spent(self.spent, c.contract, c.inputs),
            !(anchor is Unknown),
            !is_accepted(self.transfers, c.id),
            !self.sends(c),
            forall|k: int|
                0 <= k < c.outputs.len() ==> ((#[trigger] c.outputs[k]).target matches SealTarget::Blinded(
                    seal,
                ) ==> open_seal(self.seals, seal)),
            self.balance(c.contract) + blinded_total(c.outputs) <= contract_of(
                self.contracts,
                c.contract,
            ).supply,
        ensures
            self.validation_reason(c, anchor) == Reason::Valid,
            self.acceptance(c, anchor).valid,
            self.accepted(c, anchor).wf(),
            self.accepted(c, anchor).balance(c.contract) == self.balance(c.contract)
                + blinded_total(c.outputs),
    {
        assert forall|k: int| 0 <= k < c.inputs.len() implies input_matches(
            self.allocations,
            c.contract,
            #[trigger] c.inputs[k],
        ) by {
            let o = c.inputs[k].outpoint;
            if holds_at(self.allocations, c.contract, o) {
                let i = choose|i: int|
                    0 <= i < self.allocations.len() && (#[trigger] self.allocations[i]).contract
                        == c.contract && self.allocations[i].outpoint == o;
                assert(spends(c.inputs, self.allocations[i].outpoint));
                assert(consumed_by(self.allocations[i], c.contract, c.inputs));
            }
        }
        lemma_nothing_taken(self.allocations, c.contract, c.inputs);
        lemma_receiver_credits(c.outputs, c.contract, c.anchor, self.seals);
        assert(self.balance_after(c) == self.balance(c.contract) + blinded_total(c.outputs));
        assert(self.validation_reason(c, anchor) == Reason::Valid);
        self.lemma_applied_wf(c, anchor);
    }
}

} // verus!
