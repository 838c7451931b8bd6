//! The watcher: the ledger of one identity, as executable code.

use vstd::prelude::*;
use crate::amount::{rescale_spec, ContractAmount};
use crate::consignment::{
    lemma_sum_fits, Assignment, Consignment, ConsignmentData, SealTarget, Spend,
};
use crate::ids::{Hash256, OutPoint};
use crate::ledger::{
    already_spent, balance_of, consumed_by, contract_of, credit, credits, distinct, enqueue, has_seal,
    held_at, holds_any, holds_at, input_matches, inputs_match, invoice_stands, is_spent, kept, knows,
    lemma_contract_at, lemma_taken_within_balance, log_index, logged, queue_index, queued,
    seal_index, sealed_after, spends, spent_after, taken_amount, targeted, unique_log,
    unique_queue, unique_seals, unqueue, upsert, Allocation, AnchorStatus, Contract, Interface,
    import_spec, same_definition, ContractRecord, Invoice, LedgerState, Reason, SealRecord, SpentSeal,
    TransferRecord, TransferStatus, ValidationResult,
};
use crate::seal::{blind, seal_of, BlindResponse, Seal};

verus! {

/// Why the ledger turned an operation down.
#[derive(Clone, Copy, Debug, PartialEq, Eq, Structural)]
pub enum LedgerError {
    /// No contract with this id is registered.
    UnknownContract,
    /// A contract with this id is registered already.
    ContractExists,
}

/// Why an invoice could not be made.
#[derive(Clone, Copy, Debug, PartialEq, Eq, Structural)]
pub enum InvoiceError {
    /// No contract with this id and interface is registered.
    UnknownContract,
    /// The amount cannot be written in the contract's precision within 64 bits.
    InvalidAmount,
}

/// What the chain backend reports of one transaction.
#[derive(Clone, Copy, Debug, PartialEq, Eq, Structural)]
pub struct AnchorObservation {
    pub txid: Hash256,
    pub status: AnchorStatus,
}

/// What `verify_transfers` reports of one consignment.
#[derive(Clone, Copy, Debug, PartialEq, Eq, Structural)]
pub struct TransferOutcome {
    pub consignment_id: Hash256,
    pub is_accept: bool,
}

/// The ledger of one identity.
pub struct Watcher {
    identity: Hash256,
    contracts: Vec<Contract>,
    allocations: Vec<Allocation>,
    seals: Vec<SealRecord>,
    invoices: Vec<Invoice>,
    transfers: Vec<TransferRecord>,
    pending: Vec<Consignment>,
    spent: Vec<SpentSeal>,
}

/// The consignments of a queue, as values.
pub open spec fn queue_view(pending: Seq<Consignment>) -> Seq<ConsignmentData> {
    Seq::new(pending.len(), |i: int| pending[i]@)
}

/// What the chain view says of a transaction: the last observation of it, or `Unknown`.
pub open spec fn status_in(chain: Seq<AnchorObservation>, txid: Hash256) -> AnchorStatus
    decreases chain.len(),
{
    if chain.len() == 0 {
        AnchorStatus::Unknown
    } else if chain.last().txid == txid {
        chain.last().status
    } else {
        status_in(chain.drop_last(), txid)
    }
}

/// The ledger after the consignments of a queue were accepted one after the
/// other, each under the status that the chain view gives its anchor.
pub open spec fn verified(
    s: LedgerState,
    queue: Seq<ConsignmentData>,
    chain: Seq<AnchorObservation>,
) -> LedgerState
    decreases queue.len(),
{
    if queue.len() == 0 {
        s
    } else {
        verified(s, queue.drop_last(), chain).accepted(
            queue.last(),
            status_in(chain, queue.last().anchor),
        )
    }
}

/// The ledger with an empty queue.
pub open spec fn drained(s: LedgerState) -> LedgerState {
    LedgerState {
        identity: s.identity,
        contracts: s.contracts,
        allocations: s.allocations,
        seals: s.seals,
        invoices: s.invoices,
        transfers: s.transfers,
        pending: Seq::empty(),
        spent: s.spent,
    }
}

/// What `verify_transfers` reports of the consignment at position `k` of the queue.
pub open spec fn outcome_at(
    s: LedgerState,
    queue: Seq<ConsignmentData>,
    chain: Seq<AnchorObservation>,
    k: int,
) -> TransferOutcome {
    TransferOutcome {
        consignment_id: queue[k].id,
        is_accept: verified(drained(s), queue.subrange(0, k), chain).acceptance(
            queue[k],
            status_in(chain, queue[k].anchor),
        ).valid,
    }
}

/// The meaning of `create_invoice`.
pub open spec fn invoice_spec(
    s: LedgerState,
    contract: Hash256,
    interface: Interface,
    amount: ContractAmount,
    seal: Seal,
    expire_at: Option<u64>,
) -> Result<Invoice, InvoiceError> {
    if !knows(s.contracts, contract) || contract_of(s.contracts, contract).interface != interface {
        Err(InvoiceError::UnknownContract)
    } else {
        match rescale_spec(amount, contract_of(s.contracts, contract).precision) {
            Ok(normal) => Ok(Invoice { contract, interface, amount: normal, seal, expire_at }),
            Err(_) => Err(InvoiceError::InvalidAmount),
        }
    }
}

// ---------------------------------------------------------------------------
// Sums stay within 128 bits
// ---------------------------------------------------------------------------

proof fn lemma_balance_bound(allocations: Seq<Allocation>, contract: Hash256)
    ensures
        balance_of(allocations, contract) <= allocations.len() * u64::MAX,
    decreases allocations.len(),
{
    if allocations.len() > 0 {
        lemma_balance_bound(allocations.drop_last(), contract);
        assert((allocations.len() - 1) * u64::MAX + u64::MAX == allocations.len() * u64::MAX)
            by (nonlinear_arith);
    }
}

proof fn lemma_taken_bound(allocations: Seq<Allocation>, contract: Hash256, inputs: Seq<Spend>)
    ensures
        taken_amount(allocations, contract, inputs) <= allocations.len() * u64::MAX,
    decreases allocations.len(),
{
    if allocations.len() > 0 {
        lemma_taken_bound(allocations.drop_last(), contract, inputs);
        assert((allocations.len() - 1) * u64::MAX + u64::MAX == allocations.len() * u64::MAX)
            by (nonlinear_arith);
    }
}

proof fn lemma_held_bound(allocations: Seq<Allocation>, contract: Hash256, outpoint: OutPoint)
    ensures
        held_at(allocations, contract, outpoint) <= allocations.len() * u64::MAX,
    decreases allocations.len(),
{
    if allocations.len() > 0 {
        lemma_held_bound(allocations.drop_last(), contract, outpoint);
        assert((allocations.len() - 1) * u64::MAX + u64::MAX == allocations.len() * u64::MAX)
            by (nonlinear_arith);
    }
}

proof fn lemma_credits_len(
    outputs: Seq<Assignment>,
    contract: Hash256,
    anchor: Hash256,
    seals: Seq<SealRecord>,
    sender: bool,
)
    ensures
        credits(outputs, contract, anchor, seals, sender).len() <= outputs.len(),
    decreases outputs.len(),
{
    if outputs.len() > 0 {
        lemma_credits_len(outputs.drop_last(), contract, anchor, seals, sender);
    }
}

/// A prefix of a sequence, extended by one, is the shorter prefix with one element pushed.
proof fn lemma_prefix_step<T>(s: Seq<T>, i: int)
    requires
        0 <= i < s.len(),
    ensures
        s.subrange(0, i + 1).drop_last() == s.subrange(0, i),
        s.subrange(0, i + 1).last() == s[i],
        s.subrange(0, i + 1) == s.subrange(0, i).push(s[i]),
{
    assert(s.subrange(0, i + 1).drop_last() =~= s.subrange(0, i));
    assert(s.subrange(0, i + 1) =~= s.subrange(0, i).push(s[i]));
}

// ---------------------------------------------------------------------------
// Searches and sums
// ---------------------------------------------------------------------------

/// Finds the registered contract with this id.
fn find_contract(contracts: &Vec<Contract>, id: Hash256) -> (r: Option<usize>)
    ensures
        r is Some <==> knows(contracts@, id),
        r matches Some(i) ==> i < contracts.len() && contracts@[i as int].id == id,
{
    let mut i: usize = 0;
    while i < contracts.len()
        invariant
            i <= contracts.len(),
            forall|j: int| 0 <= j < i ==> (#[trigger] contracts@[j]).id != id,
        decreases contracts.len() - i,
    {
        if contracts[i].id == id {
            return Some(i);
        }
        i += 1;
    }
    None
}

/// Finds the record of a seal.
fn find_seal(seals: &Vec<SealRecord>, seal: Seal) -> (r: Option<usize>)
    ensures
        r is Some <==> has_seal(seals@, seal),
        r matches Some(i) ==> i < seals.len() && seals@[i as int].seal == seal,
{
    let mut i: usize = 0;
    while i < seals.len()
        invariant
            i <= seals.len(),
            forall|j: int| 0 <= j < i ==> (#[trigger] seals@[j]).seal != seal,
        decreases seals.len() - i,
    {
        if seals[i].seal == seal {
            return Some(i);
        }
        i += 1;
    }
    None
}

/// Finds the log entry of a consignment.
fn find_record(transfers: &Vec<TransferRecord>, id: Hash256) -> (r: Option<usize>)
    ensures
        r is Some <==> logged(transfers@, id),
        r matches Some(i) ==> i < transfers.len() && transfers@[i as int].id == id,
{
    let mut i: usize = 0;
    while i < transfers.len()
        invariant
            i <= transfers.len(),
            forall|j: int| 0 <= j < i ==> (#[trigger] transfers@[j]).id != id,
        decreases transfers.len() - i,
    {
        if transfers[i].id == id {
            return Some(i);
        }
        i += 1;
    }
    None
}

/// Finds the consignment with this id in the queue.
fn find_pending(pending: &Vec<Consignment>, id: Hash256) -> (r: Option<usize>)
    ensures
        r is Some <==> queued(queue_view(pending@), id),
        r matches Some(i) ==> i < pending.len() && pending@[i as int].id == id,
{
    let mut i: usize = 0;
    while i < pending.len()
        invariant
            i <= pending.len(),
            forall|j: int| 0 <= j < i ==> (#[trigger] queue_view(pending@)[j]).id != id,
        decreases pending.len() - i,
    {
        assert(queue_view(pending@)[i as int].id == pending@[i as int].id);
        if pending[i].id == id {
            return Some(i);
        }
        i += 1;
    }
    None
}

/// Whether one of the inputs names this output.
fn spends_outpoint(inputs: &Vec<Spend>, outpoint: OutPoint) -> (r: bool)
    ensures
        r == spends(inputs@, outpoint),
{
    let mut k: usize = 0;
    while k < inputs.len()
        invariant
            k <= inputs.len(),
            forall|j: int| 0 <= j < k ==> (#[trigger] inputs@[j]).outpoint != outpoint,
        decreases inputs.len() - k,
    {
        if inputs[k].outpoint == outpoint {
            return true;
        }
        k += 1;
    }
    false
}

/// Whether one of the assignments goes to this seal.
fn pays_seal(outputs: &Vec<Assignment>, seal: Seal) -> (r: bool)
    ensures
        r == targeted(outputs@, seal),
{
    let mut k: usize = 0;
    while k < outputs.len()
        invariant
            k <= outputs.len(),
            forall|j: int|
                0 <= j < k ==> (#[trigger] outputs@[j]).target != SealTarget::Blinded(seal),
        decreases outputs.len() - k,
    {
        let hit = match outputs[k].target {
            SealTarget::Blinded(s) => s == seal,
            SealTarget::Output(_) => false,
        };
        if hit {
            return true;
        }
        k += 1;
    }
    false
}

/// Whether no output occurs twice among the inputs.
fn inputs_distinct(inputs: &Vec<Spend>) -> (r: bool)
    ensures
        r == distinct(inputs@),
{
    let mut j: usize = 0;
    while j < inputs.len()
        invariant
            j <= inputs.len(),
            forall|a: int, b: int|
                0 <= a < b < j ==> (#[trigger] inputs@[a]).outpoint != (
                #[trigger] inputs@[b]).outpoint,
        decreases inputs.len() - j,
    {
        let mut i: usize = 0;
        while i < j
            invariant
                i <= j < inputs.len(),
                forall|a: int| 0 <= a < i ==> (#[trigger] inputs@[a]).outpoint != inputs@[j as int].outpoint,
            decreases j - i,
        {
            if inputs[i].outpoint == inputs[j].outpoint {
                return false;
            }
            i += 1;
        }
        j += 1;
    }
    true
}

/// Whether the log of consumed outputs holds this output for this contract.
fn spent_contains(spent: &Vec<SpentSeal>, contract: Hash256, outpoint: OutPoint) -> (r: bool)
    ensures
        r == is_spent(spent@, contract, outpoint),
{
    let wanted = SpentSeal { contract, outpoint };
    let mut j: usize = 0;
    while j < spent.len()
        invariant
            j <= spent.len(),
            wanted == (SpentSeal { contract, outpoint }),
            forall|i: int| 0 <= i < j ==> #[trigger] spent@[i] != wanted,
        decreases spent.len() - j,
    {
        if spent[j] == wanted {
            return true;
        }
        j += 1;
    }
    false
}

/// Whether an earlier transfer consumed one of the inputs.
fn any_already_spent(spent: &Vec<SpentSeal>, contract: Hash256, inputs: &Vec<Spend>) -> (r: bool)
    ensures
        r == already_spent(spent@, contract, inputs@),
{
    let mut k: usize = 0;
    while k < inputs.len()
        invariant
            k <= inputs.len(),
            forall|j: int|
                0 <= j < k ==> !is_spent(spent@, contract, (#[trigger] inputs@[j]).outpoint),
        decreases inputs.len() - k,
    {
        if spent_contains(spent, contract, inputs[k].outpoint) {
            return true;
        }
        k += 1;
    }
    false
}

/// The balance of a contract over a list of allocations.
fn balance_in(allocations: &Vec<Allocation>, contract: Hash256) -> (t: u128)
    ensures
        t == balance_of(allocations@, contract),
{
    let mut t: u128 = 0;
    let mut i: usize = 0;
    while i < allocations.len()
        invariant
            i <= allocations.len(),
            t == balance_of(allocations@.subrange(0, i as int), contract),
        decreases allocations.len() - i,
    {
        proof {
            lemma_balance_bound(allocations@.subrange(0, i as int), contract);
            lemma_sum_fits(i as nat, t as nat);
            lemma_prefix_step(allocations@, i as int);
        }
        if allocations[i].contract == contract {
            t = t + allocations[i].amount as u128;
        }
        i += 1;
    }
    assert(allocations@.subrange(0, i as int) =~= allocations@);
    t
}

/// What the contract holds on one output, and whether it holds anything there.
fn held_in(allocations: &Vec<Allocation>, contract: Hash256, outpoint: OutPoint) -> (r: (
    u128,
    bool,
))
    ensures
        r.0 == held_at(allocations@, contract, outpoint),
        r.1 == holds_at(allocations@, contract, outpoint),
{
    let mut t: u128 = 0;
    let mut any = false;
    let mut i: usize = 0;
    while i < allocations.len()
        invariant
            i <= allocations.len(),
            t == held_at(allocations@.subrange(0, i as int), contract, outpoint),
            any <==> exists|j: int|
                0 <= j < i && (#[trigger] allocations@[j]).contract == contract
                    && allocations@[j].outpoint == outpoint,
        decreases allocations.len() - i,
    {
        proof {
            lemma_held_bound(allocations@.subrange(0, i as int), contract, outpoint);
            lemma_sum_fits(i as nat, t as nat);
            lemma_prefix_step(allocations@, i as int);
        }
        if allocations[i].contract == contract && allocations[i].outpoint == outpoint {
            t = t + allocations[i].amount as u128;
            any = true;
        }
        i += 1;
    }
    assert(allocations@.subrange(0, i as int) =~= allocations@);
    (t, any)
}

/// Whether every input agrees with the ledger.
fn all_inputs_match(allocations: &Vec<Allocation>, contract: Hash256, inputs: &Vec<Spend>) -> (r:
    bool)
    ensures
        r == inputs_match(allocations@, contract, inputs@),
{
    let mut k: usize = 0;
    while k < inputs.len()
        invariant
            k <= inputs.len(),
            forall|j: int|
                0 <= j < k ==> input_matches(allocations@, contract, #[trigger] inputs@[j]),
        decreases inputs.len() - k,
    {
        let (held, any) = held_in(allocations, contract, inputs[k].outpoint);
        if any && held != inputs[k].amount as u128 {
            assert(!input_matches(allocations@, contract, inputs@[k as int]));
            return false;
        }
        k += 1;
    }
    true
}

/// Splits the allocations into those that the transition leaves and the total
/// of those that it consumes.
fn split_allocations(allocations: &Vec<Allocation>, contract: Hash256, inputs: &Vec<Spend>) -> (r:
    (Vec<Allocation>, u128, bool))
    ensures
        r.0@ == kept(allocations@, contract, inputs@),
        r.1 == taken_amount(allocations@, contract, inputs@),
        r.2 == holds_any(allocations@, contract, inputs@),
{
    let mut rest: Vec<Allocation> = Vec::new();
    let mut t: u128 = 0;
    let mut any = false;
    let mut i: usize = 0;
    while i < allocations.len()
        invariant
            i <= allocations.len(),
            rest@ == kept(allocations@.subrange(0, i as int), contract, inputs@),
            t == taken_amount(allocations@.subrange(0, i as int), contract, inputs@),
            any <==> exists|j: int|
                0 <= j < i && consumed_by(#[trigger] allocations@[j], contract, inputs@),
        decreases allocations.len() - i,
    {
        proof {
            lemma_taken_bound(allocations@.subrange(0, i as int), contract, inputs@);
            lemma_sum_fits(i as nat, t as nat);
            lemma_prefix_step(allocations@, i as int);
        }
        let a = allocations[i];
        if a.contract == contract && spends_outpoint(inputs, a.outpoint) {
            t = t + a.amount as u128;
            any = true;
        } else {
            rest.push(a);
        }
        i += 1;
    }
    assert(allocations@.subrange(0, i as int) =~= allocations@);
    (rest, t, any)
}

/// What one assignment gives the holder of these seals.
fn credit_of(
    a: Assignment,
    contract: Hash256,
    anchor: Hash256,
    seals: &Vec<SealRecord>,
    sender: bool,
) -> (r: Option<Allocation>)
    requires
        unique_seals(seals@),
    ensures
        r == credit(a, contract, anchor, seals@, sender),
{
    match a.target {
        SealTarget::Blinded(seal) => match find_seal(seals, seal) {
            Some(i) => {
                assert(seal_index(seals@, seal) == i);
                if seals[i].open {
                    Some(
                        Allocation {
                            contract,
                            outpoint: seals[i].outpoint,
                            amount: a.amount,
                            seal: Some(seal),
                        },
                    )
                } else {
                    None
                }
            },
            None => None,
        },
        SealTarget::Output(vout) => if sender {
            Some(
                Allocation {
                    contract,
                    outpoint: OutPoint { txid: anchor, vout },
                    amount: a.amount,
                    seal: None,
                },
            )
        } else {
            None
        },
    }
}

/// Appends to `into` what the assignments give the holder of these seals, and adds it up.
fn collect_credits(
    into: &mut Vec<Allocation>,
    outputs: &Vec<Assignment>,
    contract: Hash256,
    anchor: Hash256,
    seals: &Vec<SealRecord>,
    sender: bool,
) -> (t: u128)
    requires
        unique_seals(seals@),
    ensures
        final(into)@ == old(into)@ + credits(outputs@, contract, anchor, seals@, sender),
        t == balance_of(credits(outputs@, contract, anchor, seals@, sender), contract),
{
    let mut t: u128 = 0;
    let mut k: usize = 0;
    assert(into@ =~= old(into)@ + credits(
        outputs@.subrange(0, 0),
        contract,
        anchor,
        seals@,
        sender,
    ));
    while k < outputs.len()
        invariant
            k <= outputs.len(),
            unique_seals(seals@),
            into@ == old(into)@ + credits(
                outputs@.subrange(0, k as int),
                contract,
                anchor,
                seals@,
                sender,
            ),
            t == balance_of(
                credits(outputs@.subrange(0, k as int), contract, anchor, seals@, sender),
                contract,
            ),
        decreases outputs.len() - k,
    {
        let ghost before = credits(outputs@.subrange(0, k as int), contract, anchor, seals@, sender);
        proof {
            lemma_credits_len(outputs@.subrange(0, k as int), contract, anchor, seals@, sender);
            lemma_balance_bound(before, contract);
            assert(before.len() * u64::MAX <= k * u64::MAX) by (nonlinear_arith)
                requires
                    before.len() <= k,
            ;
            lemma_sum_fits(k as nat, t as nat);
            lemma_prefix_step(outputs@, k as int);
        }
        match credit_of(outputs[k], contract, anchor, seals, sender) {
            Some(a) => {
                into.push(a);
                t = t + a.amount as u128;
                proof {
                    assert(before.push(a).drop_last() =~= before);
                    assert(into@ =~= old(into)@ + before.push(a));
                }
            },
            None => {},
        }
        k += 1;
    }
    assert(outputs@.subrange(0, k as int) =~= outputs@);
    t
}

/// The status that the chain view gives a transaction.
fn status_of(chain: &Vec<AnchorObservation>, txid: Hash256) -> (s: AnchorStatus)
    ensures
        s == status_in(chain@, txid),
{
    let mut s = AnchorStatus::Unknown;
    let mut i: usize = 0;
    while i < chain.len()
        invariant
            i <= chain.len(),
            s == status_in(chain@.subrange(0, i as int), txid),
        decreases chain.len() - i,
    {
        proof {
            lemma_prefix_step(chain@, i as int);
        }
        if chain[i].txid == txid {
            s = chain[i].status;
        }
        i += 1;
    }
    assert(chain@.subrange(0, i as int) =~= chain@);
    s
}


/// Sets the log entry of a consignment.
fn log_set(transfers: &mut Vec<TransferRecord>, record: TransferRecord)
    requires
        unique_log(old(transfers)@),
    ensures
        final(transfers)@ == upsert(old(transfers)@, record),
{
    match find_record(transfers, record.id) {
        Some(i) => {
            proof {
                lemma_log_index(transfers@, record.id, i as int);
            }
            transfers.set(i, record);
        },
        None => {
            transfers.push(record);
        },
    }
}

/// In a log without doubles, a position that holds an id is the position of that id.
proof fn lemma_log_index(transfers: Seq<TransferRecord>, id: Hash256, i: int)
    requires
        0 <= i < transfers.len(),
        transfers[i].id == id,
        unique_log(transfers),
    ensures
        log_index(transfers, id) == i,
{
    let j = log_index(transfers, id);
    assert(transfers[j].id == transfers[i].id);
}

impl View for Watcher {
    type V = LedgerState;

    closed spec fn view(&self) -> LedgerState {
        LedgerState {
            identity: self.identity,
            contracts: self.contracts@,
            allocations: self.allocations@,
            seals: self.seals@,
            invoices: self.invoices@,
            transfers: self.transfers@,
            pending: queue_view(self.pending@),
            spent: self.spent@,
        }
    }
}

impl Watcher {
    /// A watcher for `identity` that has seen nothing yet.
    pub fn new(identity: Hash256) -> (w: Watcher)
        ensures
            w@ == LedgerState::empty(identity),
            w@.wf(),
    {
        let w = Watcher {
            identity,
            contracts: Vec::new(),
            allocations: Vec::new(),
            seals: Vec::new(),
            invoices: Vec::new(),
            transfers: Vec::new(),
            pending: Vec::new(),
            spent: Vec::new(),
        };
        assert(w@.pending =~= Seq::<ConsignmentData>::empty());
        w
    }

    /// The identity that this ledger belongs to.
    pub fn identity(&self) -> (id: Hash256)
        ensures
            id == self@.identity,
    {
        self.identity
    }

    /// Adds a contract whose id is not registered yet.
    fn register_contract(&mut self, contract: Contract)
        requires
            old(self)@.wf(),
            !knows(old(self)@.contracts, contract.id),
        ensures
            final(self)@.wf(),
            final(self)@ == (LedgerState {
                contracts: old(self)@.contracts.push(contract),
                ..old(self)@
            }),
            knows(final(self)@.contracts, contract.id),
            contract_of(final(self)@.contracts, contract.id) == contract,
            final(self)@.balance(contract.id) == 0,
    {
        let ghost id = contract.id;
        let ghost before = self@;
        self.contracts.push(contract);
        proof {
            let after = self@;
            assert forall|i: int| 0 <= i < after.allocations.len() implies knows(
                after.contracts,
                (#[trigger] after.allocations[i]).contract,
            ) by {
                let of = before.allocations[i].contract;
                assert(knows(before.contracts, of));
                let j = choose|j: int|
                    0 <= j < before.contracts.len() && (#[trigger] before.contracts[j]).id == of;
                assert(after.contracts[j].id == of);
            }
            assert forall|i: int| 0 <= i < after.contracts.len() implies balance_of(
                after.allocations,
                (#[trigger] after.contracts[i]).id,
            ) <= after.contracts[i].supply by {
                if i < before.contracts.len() {
                    assert(after.contracts[i] == before.contracts[i]);
                } else {
                    lemma_unknown_contract_has_nothing(before, id);
                }
            }
            assert forall|i: int, j: int|
                0 <= i < after.contracts.len() && 0 <= j < after.contracts.len() && (
                #[trigger] after.contracts[i]).id == (#[trigger] after.contracts[j]).id implies i
                == j by {
                if i < before.contracts.len() {
                    assert(after.contracts[i] == before.contracts[i]);
                }
                if j < before.contracts.len() {
                    assert(after.contracts[j] == before.contracts[j]);
                }
            }
            lemma_unknown_contract_has_nothing(before, id);
            lemma_contract_at(after.contracts, before.contracts.len() as int);
        }
    }

    /// The definition and the balance of the contract at a position.
    fn record_at(&self, i: usize) -> (r: ContractRecord)
        requires
            self@.wf(),
            i < self@.contracts.len(),
        ensures
            r == self@.record(self@.contracts[i as int].id),
    {
        proof {
            lemma_contract_at(self@.contracts, i as int);
        }
        let c = &self.contracts[i];
        let b = balance_in(&self.allocations, c.id);
        assert(b <= self@.contracts[i as int].supply);
        ContractRecord {
            contract: Contract {
                id: c.id,
                interface: c.interface,
                precision: c.precision,
                supply: c.supply,
                ticker: c.ticker.clone(),
                name: c.name.clone(),
                description: c.description.clone(),
            },
            balance: b as u64,
        }
    }

    /// Registers a contract that another party issued, and answers with what
    /// this identity knows of it.
    ///
    /// A contract that is registered already with the same definition stays
    /// as it is, and the import answers as the first one did, with the
    /// balance held now. A definition that differs from the one registered
    /// under its id is turned down with `ContractExists`, and nothing changes.
    pub fn import_contract(&mut self, contract: Contract) -> (r: Result<ContractRecord, LedgerError>)
        requires
            old(self)@.wf(),
        ensures
            final(self)@.wf(),
            final(self)@ == old(self)@.imported(contract),
            r == import_spec(old(self)@, contract),
            r matches Ok(record) ==> knows(final(self)@.contracts, contract.id)
                && same_definition(record.contract, contract),
    {
        match find_contract(&self.contracts, contract.id) {
            Some(i) => {
                proof {
                    lemma_contract_at(self@.contracts, i as int);
                }
                let known = &self.contracts[i];
                if known.interface == contract.interface && known.precision == contract.precision
                    && known.supply == contract.supply && known.ticker == contract.ticker
                    && known.name == contract.name && known.description == contract.description {
                    Ok(self.record_at(i))
                } else {
                    Err(LedgerError::ContractExists)
                }
            },
            None => {
                let ghost given = contract;
                self.register_contract(contract);
                let r = self.record_at(self.contracts.len() - 1);
                assert(r == self@.record(given.id));
                Ok(r)
            },
        }
    }

    /// What this identity knows of a registered contract: its definition, and
    /// the balance held.
    ///
    /// Fails if and only if the contract is not registered.
    pub fn get_contract(&self, id: Hash256) -> (r: Result<ContractRecord, LedgerError>)
        requires
            self@.wf(),
        ensures
            knows(self@.contracts, id) ==> r == Ok::<ContractRecord, LedgerError>(self@.record(id)),
            !knows(self@.contracts, id) ==> r == Err::<ContractRecord, LedgerError>(
                LedgerError::UnknownContract,
            ),
    {
        match find_contract(&self.contracts, id) {
            Some(i) => Ok(self.record_at(i)),
            None => Err(LedgerError::UnknownContract),
        }
    }

    /// Registers a contract of this identity's own and puts its whole supply on `genesis`.
    ///
    /// Fails if and only if a contract with this id is registered already.
    pub fn issue(&mut self, contract: Contract, genesis: OutPoint) -> (r: Result<(), LedgerError>)
        requires
            old(self)@.wf(),
        ensures
            final(self)@.wf(),
            knows(old(self)@.contracts, contract.id) ==> r == Err::<(), LedgerError>(
                LedgerError::ContractExists,
            ) && final(self)@ == old(self)@,
            !knows(old(self)@.contracts, contract.id) ==> r == Ok::<(), LedgerError>(())
                && final(self)@ == (LedgerState {
                contracts: old(self)@.contracts.push(contract),
                allocations: old(self)@.allocations.push(
                    Allocation {
                        contract: contract.id,
                        outpoint: genesis,
                        amount: contract.supply,
                        seal: None,
                    },
                ),
                ..old(self)@
            }) && final(self)@.balance(contract.id) == contract.supply,
    {
        let id = contract.id;
        let supply = contract.supply;
        if find_contract(&self.contracts, id).is_some() {
            return Err(LedgerError::ContractExists);
        }
        self.register_contract(contract);
        let ghost before = self@;
        self.allocations.push(
            Allocation { contract: id, outpoint: genesis, amount: supply, seal: None },
        );
        proof {
            let after = self@;
            let n = before.allocations.len() as int;
            assert(after.allocations.drop_last() =~= before.allocations);
            assert forall|i: int| 0 <= i < after.allocations.len() implies knows(
                after.contracts,
                (#[trigger] after.allocations[i]).contract,
            ) by {
                if i < n {
                    assert(after.allocations[i] == before.allocations[i]);
                }
            }
            assert forall|i: int| 0 <= i < after.contracts.len() implies balance_of(
                after.allocations,
                (#[trigger] after.contracts[i]).id,
            ) <= after.contracts[i].supply by {
                if after.contracts[i].id == id {
                    assert(after.contracts[after.contracts.len() - 1].id == id);
                    assert(i == after.contracts.len() - 1);
                }
            }
        }
        Ok(())
    }

    /// The definition of a registered contract.
    pub fn contract(&self, id: Hash256) -> (r: Option<&Contract>)
        requires
            self@.wf(),
        ensures
            r is Some <==> knows(self@.contracts, id),
            r matches Some(c) ==> *c == contract_of(self@.contracts, id),
    {
        match find_contract(&self.contracts, id) {
            Some(i) => {
                proof {
                    lemma_contract_at(self@.contracts, i as int);
                }
                Some(&self.contracts[i])
            },
            None => None,
        }
    }

    /// The spendable balance of a contract, in base units.
    ///
    /// Fails if and only if the contract is not registered.
    pub fn balance(&self, contract: Hash256) -> (r: Result<u64, LedgerError>)
        requires
            self@.wf(),
        ensures
            knows(self@.contracts, contract) ==> r == Ok::<u64, LedgerError>(
                self@.balance(contract) as u64,
            ) && self@.balance(contract) <= u64::MAX,
            !knows(self@.contracts, contract) ==> r == Err::<u64, LedgerError>(
                LedgerError::UnknownContract,
            ),
    {
        match find_contract(&self.contracts, contract) {
            Some(i) => {
                let b = balance_in(&self.allocations, contract);
                assert(b <= self@.contracts[i as int].supply);
                Ok(b as u64)
            },
            None => Err(LedgerError::UnknownContract),
        }
    }

    /// The spendable balance of a contract as an amount at the contract's precision.
    pub fn balance_amount(&self, contract: Hash256) -> (r: Result<ContractAmount, LedgerError>)
        requires
            self@.wf(),
        ensures
            knows(self@.contracts, contract) ==> r == Ok::<ContractAmount, LedgerError>(
                ContractAmount {
                    value: self@.balance(contract) as u64,
                    precision: contract_of(self@.contracts, contract).precision,
                },
            ),
            !knows(self@.contracts, contract) ==> r == Err::<ContractAmount, LedgerError>(
                LedgerError::UnknownContract,
            ),
    {
        match find_contract(&self.contracts, contract) {
            Some(i) => {
                proof {
                    lemma_contract_at(self@.contracts, i as int);
                }
                let b = balance_in(&self.allocations, contract);
                assert(b <= self@.contracts[i as int].supply);
                Ok(ContractAmount { value: b as u64, precision: self.contracts[i].precision })
            },
            None => Err(LedgerError::UnknownContract),
        }
    }

    /// The allocations of a contract, in the order in which they came.
    pub fn allocations_of(&self, contract: Hash256) -> (r: Vec<Allocation>)
        ensures
            r@ == self@.allocations.filter(|a: Allocation| a.contract == contract),
    {
        let mut r: Vec<Allocation> = Vec::new();
        let mut i: usize = 0;
        let ghost pred = |a: Allocation| a.contract == contract;
        assert(self.allocations@.subrange(0, 0).filter(pred) =~= Seq::<Allocation>::empty()) by {
            reveal(Seq::filter);
        }
        while i < self.allocations.len()
            invariant
                i <= self.allocations.len(),
                pred == |a: Allocation| a.contract == contract,
                r@ == self.allocations@.subrange(0, i as int).filter(pred),
            decreases self.allocations.len() - i,
        {
            proof {
                lemma_prefix_step(self.allocations@, i as int);
                reveal(Seq::filter);
            }
            if self.allocations[i].contract == contract {
                r.push(self.allocations[i]);
            }
            i += 1;
        }
        assert(self.allocations@.subrange(0, i as int) =~= self.allocations@);
        r
    }

    /// Whether this identity holds an allocation of the contract on every
    /// output that the inputs name, each with the amount that the input claims.
    ///
    /// A seller asks this again before signing: the allocations may have been
    /// spent since the transaction was composed.
    pub fn holds_inputs(&self, contract: Hash256, inputs: &Vec<Spend>) -> (r: bool)
        ensures
            r == forall|k: int|
                0 <= k < inputs@.len() ==> holds_at(
                    self@.allocations,
                    contract,
                    (#[trigger] inputs@[k]).outpoint,
                ) && held_at(self@.allocations, contract, inputs@[k].outpoint) == inputs@[k].amount,
    {
        let mut k: usize = 0;
        while k < inputs.len()
            invariant
                k <= inputs.len(),
                forall|j: int|
                    0 <= j < k ==> holds_at(
                        self@.allocations,
                        contract,
                        (#[trigger] inputs@[j]).outpoint,
                    ) && held_at(self@.allocations, contract, inputs@[j].outpoint)
                        == inputs@[j].amount,
            decreases inputs.len() - k,
        {
            let (held, any) = held_in(&self.allocations, contract, inputs[k].outpoint);
            if !any || held != inputs[k].amount as u128 {
                assert(!(holds_at(self@.allocations, contract, inputs@[k as int].outpoint)
                    && held_at(self@.allocations, contract, inputs@[k as int].outpoint)
                    == inputs@[k as int].amount));
                return false;
            }
            k += 1;
        }
        true
    }

    /// Blinds `outpoint` with the factor `blinding` and remembers the seal.
    ///
    /// A seal that was handed out before is handed out again, as it stands.
    pub fn blind_utxo(&mut self, outpoint: OutPoint, blinding: u64) -> (r: BlindResponse)
        requires
            old(self)@.wf(),
        ensures
            final(self)@.wf(),
            r == (BlindResponse { conceal: seal_of(outpoint, blinding), blinding }),
            has_seal(old(self)@.seals, r.conceal) ==> final(self)@ == old(self)@,
            !has_seal(old(self)@.seals, r.conceal) ==> final(self)@ == (LedgerState {
                seals: old(self)@.seals.push(
                    SealRecord { seal: r.conceal, outpoint, blinding, open: true },
                ),
                ..old(self)@
            }),
    {
        let (response, _) = blind(outpoint, blinding);
        if find_seal(&self.seals, response.conceal).is_none() {
            let ghost before = self@;
            self.seals.push(
                SealRecord { seal: response.conceal, outpoint, blinding, open: true },
            );
            proof {
                let after = self@;
                assert forall|i: int, j: int|
                    0 <= i < after.seals.len() && 0 <= j < after.seals.len() && (
                    #[trigger] after.seals[i]).seal == (#[trigger] after.seals[j]).seal implies i
                    == j by {
                    if i < before.seals.len() {
                        assert(after.seals[i] == before.seals[i]);
                    }
                    if j < before.seals.len() {
                        assert(after.seals[j] == before.seals[j]);
                    }
                }
            }
        }
        response
    }

    /// Makes an invoice for an amount of a registered contract and records it.
    ///
    /// The amount is brought to the contract's precision.
    pub fn create_invoice(
        &mut self,
        contract: Hash256,
        interface: Interface,
        amount: ContractAmount,
        seal: Seal,
        expire_at: Option<u64>,
    ) -> (r: Result<Invoice, InvoiceError>)
        requires
            old(self)@.wf(),
        ensures
            final(self)@.wf(),
            r == invoice_spec(old(self)@, contract, interface, amount, seal, expire_at),
            r matches Ok(invoice) ==> final(self)@ == (LedgerState {
                invoices: old(self)@.invoices.push(invoice),
                ..old(self)@
            }),
            r is Err ==> final(self)@ == old(self)@,
    {
        let i = match find_contract(&self.contracts, contract) {
            Some(i) => i,
            None => {
                return Err(InvoiceError::UnknownContract);
            },
        };
        proof {
            lemma_contract_at(self@.contracts, i as int);
        }
        if self.contracts[i].interface != interface {
            return Err(InvoiceError::UnknownContract);
        }
        match amount.rescale(self.contracts[i].precision) {
            Ok(normal) => {
                let invoice = Invoice { contract, interface, amount: normal, seal, expire_at };
                self.invoices.push(invoice);
                Ok(invoice)
            },
            Err(_) => Err(InvoiceError::InvalidAmount),
        }
    }

    /// Whether an invoice still stands at the time `now`.
    ///
    /// An invoice is good for one transfer: it lapses when its seal is paid,
    /// and when its deadline passes.
    pub fn invoice_is_open(&self, invoice: &Invoice, now: u64) -> (r: bool)
        requires
            self@.wf(),
        ensures
            r == invoice_stands(self@.seals, *invoice, now),
    {
        let unpaid = match find_seal(&self.seals, invoice.seal) {
            Some(i) => {
                assert(seal_index(self@.seals, invoice.seal) == i);
                self.seals[i].open
            },
            None => true,
        };
        let in_time = match invoice.expire_at {
            Some(deadline) => now < deadline,
            None => true,
        };
        unpaid && in_time
    }

    /// The invoices made so far, in their order.
    pub fn invoices(&self) -> (r: Vec<Invoice>)
        ensures
            r@ == self@.invoices,
    {
        let mut r: Vec<Invoice> = Vec::new();
        let mut i: usize = 0;
        while i < self.invoices.len()
            invariant
                i <= self.invoices.len(),
                r@ == self.invoices@.subrange(0, i as int),
            decreases self.invoices.len() - i,
        {
            r.push(self.invoices[i]);
            assert(r@ =~= self.invoices@.subrange(0, i as int + 1));
            i += 1;
        }
        assert(self.invoices@.subrange(0, i as int) =~= self.invoices@);
        r
    }

    /// The transfer log, in the order in which consignments were first seen.
    pub fn transfers(&self) -> (r: Vec<TransferRecord>)
        ensures
            r@ == self@.transfers,
    {
        let mut r: Vec<TransferRecord> = Vec::new();
        let mut i: usize = 0;
        while i < self.transfers.len()
            invariant
                i <= self.transfers.len(),
                r@ == self.transfers@.subrange(0, i as int),
            decreases self.transfers.len() - i,
        {
            r.push(self.transfers[i]);
            assert(r@ =~= self.transfers@.subrange(0, i as int + 1));
            i += 1;
        }
        assert(self.transfers@.subrange(0, i as int) =~= self.transfers@);
        r
    }

    /// The number of consignments that wait for their anchor.
    pub fn pending_count(&self) -> (n: usize)
        ensures
            n == self@.pending.len(),
    {
        self.pending.len()
    }

    /// Validates a consignment against the ledger, without changing anything.
    pub fn validate(&self, c: &Consignment, anchor: AnchorStatus) -> (r: ValidationResult)
        requires
            self@.wf(),
        ensures
            r.reason == self@.validation_reason(c@, anchor),
            r.valid == (r.reason == Reason::Valid),
    {
        let i = match find_contract(&self.contracts, c.contract) {
            Some(i) => i,
            None => {
                return ValidationResult { valid: false, reason: Reason::UnknownContract };
            },
        };
        proof {
            lemma_contract_at(self@.contracts, i as int);
        }
        if !c.commitment_holds() {
            return ValidationResult { valid: false, reason: Reason::CommitmentMismatch };
        }
        if !c.is_balanced() {
            return ValidationResult { valid: false, reason: Reason::Unbalanced };
        }
        if !inputs_distinct(&c.inputs) || any_already_spent(&self.spent, c.contract, &c.inputs) {
            return ValidationResult { valid: false, reason: Reason::DoubleSpend };
        }
        if !all_inputs_match(&self.allocations, c.contract, &c.inputs) {
            return ValidationResult { valid: false, reason: Reason::InputMismatch };
        }
        match anchor {
            AnchorStatus::Unknown => {
                return ValidationResult { valid: false, reason: Reason::AnchorUnconfirmed };
            },
            _ => {},
        }
        let outputs_len = c.outputs.len();
        let before = balance_in(&self.allocations, c.contract);
        let (_, taken, sender) = split_allocations(&self.allocations, c.contract, &c.inputs);
        let mut scratch: Vec<Allocation> = Vec::new();
        let gain = collect_credits(
            &mut scratch,
            &c.outputs,
            c.contract,
            c.anchor,
            &self.seals,
            sender,
        );
        proof {
            lemma_taken_within_balance(self@.allocations, c@.contract, c@.inputs);
            lemma_credits_len(c@.outputs, c@.contract, c@.anchor, self@.seals, sender);
            lemma_balance_bound(self@.credits_of(c@), c@.contract);
            assert(self@.credits_of(c@).len() * u64::MAX <= c@.outputs.len() * u64::MAX)
                by (nonlinear_arith)
                requires
                    self@.credits_of(c@).len() <= c@.outputs.len(),
            ;
            lemma_sum_fits(outputs_len as nat, gain as nat);
            assert(before <= self@.contracts[i as int].supply);
        }
        let after: u128 = before - taken + gain;
        if after > self.contracts[i].supply as u128 {
            return ValidationResult { valid: false, reason: Reason::ExceedsSupply };
        }
        ValidationResult { valid: true, reason: Reason::Valid }
    }

    /// Closes the seals that the assignments pay.
    fn close_seals(&mut self, outputs: &Vec<Assignment>)
        ensures
            final(self)@ == (LedgerState {
                seals: sealed_after(old(self)@.seals, outputs@),
                ..old(self)@
            }),
    {
        let mut i: usize = 0;
        let n = self.seals.len();
        while i < n
            invariant
                i <= n,
                n == self.seals@.len(),
                n == old(self).seals@.len(),
                self.identity == old(self).identity,
                self.contracts == old(self).contracts,
                self.allocations == old(self).allocations,
                self.invoices == old(self).invoices,
                self.transfers == old(self).transfers,
                self.pending == old(self).pending,
                self.spent == old(self).spent,
                forall|j: int|
                    0 <= j < i ==> #[trigger] self.seals@[j] == sealed_after(
                        old(self).seals@,
                        outputs@,
                    )[j],
                forall|j: int| i <= j < n ==> #[trigger] self.seals@[j] == old(self).seals@[j],
            decreases n - i,
        {
            let record = self.seals[i];
            if record.open && pays_seal(outputs, record.seal) {
                self.seals.set(
                    i,
                    SealRecord {
                        seal: record.seal,
                        outpoint: record.outpoint,
                        blinding: record.blinding,
                        open: false,
                    },
                );
            }
            i += 1;
        }
        assert(self.seals@ =~= sealed_after(old(self).seals@, outputs@));
    }

    /// Adds the inputs to the log of consumed outputs.
    fn record_spent(&mut self, contract: Hash256, inputs: &Vec<Spend>)
        ensures
            final(self)@ == (LedgerState {
                spent: spent_after(old(self)@.spent, contract, inputs@),
                ..old(self)@
            }),
    {
        let mut k: usize = 0;
        while k < inputs.len()
            invariant
                k <= inputs.len(),
                self.identity == old(self).identity,
                self.contracts == old(self).contracts,
                self.allocations == old(self).allocations,
                self.seals == old(self).seals,
                self.invoices == old(self).invoices,
                self.transfers == old(self).transfers,
                self.pending == old(self).pending,
                self.spent@ == spent_after(
                    old(self).spent@,
                    contract,
                    inputs@.subrange(0, k as int),
                ),
            decreases inputs.len() - k,
        {
            self.spent.push(SpentSeal { contract, outpoint: inputs[k].outpoint });
            assert(self.spent@ =~= spent_after(
                old(self).spent@,
                contract,
                inputs@.subrange(0, k as int + 1),
            ));
            k += 1;
        }
        assert(inputs@.subrange(0, k as int) =~= inputs@);
    }

    /// Takes the consignment with this id out of the queue, if it waits there.
    fn leave_queue(&mut self, id: Hash256)
        requires
            unique_queue(old(self)@.pending),
        ensures
            final(self)@ == (LedgerState {
                pending: unqueue(old(self)@.pending, id),
                ..old(self)@
            }),
    {
        match find_pending(&self.pending, id) {
            Some(i) => {
                let ghost before = queue_view(self.pending@);
                proof {
                    assert(before[i as int].id == id);
                    let j = queue_index(before, id);
                    assert(before[j].id == before[i as int].id);
                }
                let _ = self.pending.remove(i);
                assert(queue_view(self.pending@) =~= before.remove(i as int));
            },
            None => {},
        }
    }

    /// Puts a consignment into the queue, unless one with its id waits there.
    fn join_queue(&mut self, c: Consignment)
        ensures
            final(self)@ == (LedgerState {
                pending: enqueue(old(self)@.pending, c@),
                ..old(self)@
            }),
    {
        if find_pending(&self.pending, c.id).is_none() {
            let ghost before = queue_view(self.pending@);
            self.pending.push(c);
            assert(queue_view(self.pending@) =~= before.push(c@));
        }
    }

    /// Accepts a transfer: validates the consignment and, if it is valid,
    /// applies it to the ledger.
    ///
    /// A consignment whose id does not commit to its content is turned down
    /// and leaves no trace. One that was accepted before is answered as
    /// before, and nothing changes. One that is valid consumes the
    /// allocations on its inputs and credits what it assigns to this
    /// identity, all at once. One whose anchor the chain has not seen waits
    /// in the queue; any other is logged as rejected. The ledger's balances
    /// change only in the valid case.
    pub fn accept_transfer(&mut self, c: Consignment, anchor: AnchorStatus) -> (r: ValidationResult)
        requires
            old(self)@.wf(),
        ensures
            final(self)@ == old(self)@.accepted(c@, anchor),
            r == old(self)@.acceptance(c@, anchor),
            final(self)@.wf(),
    {
        proof {
            old(self)@.lemma_accepted_wf(c@, anchor);
        }
        if !c.commitment_holds() {
            return self.validate(&c, anchor);
        }
        match find_record(&self.transfers, c.id) {
            Some(i) => {
                proof {
                    lemma_log_index(self.transfers@, c.id, i as int);
                }
                match self.transfers[i].status {
                    TransferStatus::Accepted => {
                        return ValidationResult { valid: true, reason: Reason::Valid };
                    },
                    _ => {},
                }
            },
            None => {},
        }
        let verdict = self.validate(&c, anchor);
        if verdict.valid {
            let (mut next, _, sender) = split_allocations(&self.allocations, c.contract, &c.inputs);
            let _ = collect_credits(
                &mut next,
                &c.outputs,
                c.contract,
                c.anchor,
                &self.seals,
                sender,
            );
            self.allocations = next;
            self.close_seals(&c.outputs);
            self.record_spent(c.contract, &c.inputs);
            log_set(
                &mut self.transfers,
                TransferRecord { id: c.id, status: TransferStatus::Accepted, reason: Reason::Valid },
            );
            self.leave_queue(c.id);
        } else {
            let status = match verdict.reason {
                Reason::AnchorUnconfirmed => TransferStatus::Pending,
                _ => TransferStatus::Rejected,
            };
            log_set(
                &mut self.transfers,
                TransferRecord { id: c.id, status, reason: verdict.reason },
            );
            match verdict.reason {
                Reason::AnchorUnconfirmed => {
                    self.join_queue(c);
                },
                _ => {
                    self.leave_queue(c.id);
                },
            }
        }
        verdict
    }

    /// Validates anew every consignment that waits for its anchor, under the
    /// status that the chain view gives it, and accepts those that now pass.
    ///
    /// The consignments are taken in the order in which they wait. The answer
    /// lists them in that order, each with whether it was accepted.
    pub fn verify_transfers(&mut self, chain: &Vec<AnchorObservation>) -> (r: Vec<TransferOutcome>)
        requires
            old(self)@.wf(),
        ensures
            final(self)@ == verified(drained(old(self)@), old(self)@.pending, chain@),
            final(self)@.wf(),
            r@.len() == old(self)@.pending.len(),
            forall|k: int|
                0 <= k < r@.len() ==> #[trigger] r@[k] == outcome_at(
                    old(self)@,
                    old(self)@.pending,
                    chain@,
                    k,
                ),
    {
        let mut queue: Vec<Consignment> = Vec::new();
        core::mem::swap(&mut queue, &mut self.pending);
        let ghost all = old(self)@.pending;
        let ghost start = drained(old(self)@);
        let mut results: Vec<TransferOutcome> = Vec::new();
        assert(self@.pending =~= Seq::<ConsignmentData>::empty());
        assert(self@ == start);
        assert(all.subrange(0, 0) =~= Seq::<ConsignmentData>::empty());
        assert(queue_view(queue@) =~= all.subrange(0, all.len() as int));
        while queue.len() > 0
            invariant
                all == old(self)@.pending,
                start == drained(old(self)@),
                results@.len() + queue@.len() == all.len(),
                queue_view(queue@) == all.subrange(results@.len() as int, all.len() as int),
                self@ == verified(start, all.subrange(0, results@.len() as int), chain@),
                self@.wf(),
                forall|k: int|
                    0 <= k < results@.len() ==> #[trigger] results@[k] == outcome_at(
                        old(self)@,
                        all,
                        chain@,
                        k,
                    ),
            decreases queue.len(),
        {
            let ghost k = results@.len() as int;
            let ghost waiting = queue_view(queue@);
            let c = queue.remove(0);
            proof {
                assert(waiting[0] == c@);
                assert(c@ == all[k]);
                assert forall|j: int| 0 <= j < queue@.len() implies #[trigger] queue_view(queue@)[j]
                    == all[k + 1 + j] by {
                    assert(waiting[j + 1] == all[k + 1 + j]);
                }
                assert(queue_view(queue@) =~= all.subrange(k + 1, all.len() as int));
                assert(all.subrange(0, k + 1).drop_last() =~= all.subrange(0, k));
            }
            let status = status_of(chain, c.anchor);
            let id = c.id;
            let verdict = self.accept_transfer(c, status);
            results.push(TransferOutcome { consignment_id: id, is_accept: verdict.valid });
        }
        assert(all.subrange(0, all.len() as int) =~= all);
        results
    }
}

/// A contract that is not registered has no allocations.
proof fn lemma_unknown_contract_has_nothing(s: LedgerState, id: Hash256)
    requires
        s.wf(),
        !knows(s.contracts, id),
    ensures
        balance_of(s.allocations, id) == 0,
{
    lemma_absent_contract_balance(s.allocations, s.contracts, id);
}

proof fn lemma_absent_contract_balance(
    allocations: Seq<Allocation>,
    contracts: Seq<Contract>,
    id: Hash256,
)
    requires
        !knows(contracts, id),
        forall|i: int|
            0 <= i < allocations.len() ==> knows(contracts, (#[trigger] allocations[i]).contract),
    ensures
        balance_of(allocations, id) == 0,
    decreases allocations.len(),
{
    if allocations.len() > 0 {
        let front = allocations.drop_last();
        assert forall|i: int| 0 <= i < front.len() implies knows(
            contracts,
            (#[trigger] front[i]).contract,
        ) by {
            assert(front[i] == allocations[i]);
        }
        lemma_absent_contract_balance(front, contracts, id);
        assert(knows(contracts, allocations[allocations.len() - 1].contract));
    }
}

} // verus!
