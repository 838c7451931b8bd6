//! Partially signed transactions: composing one for a transfer, merging the
//! fragments of two parties, and deriving the consignment that it anchors.

use vstd::prelude::*;
use crate::consignment::{
    assigned_total, balanced, commitment_of, lemma_sum_fits, spent_total, Assignment, Consignment,
    ConsignmentData, InvalidTransition, SealTarget, Spend,
};
use crate::digest::{digest_id, sha256_id};
use crate::ids::{be_bytes, outpoint_bytes, push_be, Hash256, OutPoint};

verus! {

/// An unspent output of the wallet: where it is, what it is worth, and which descriptor controls it.
#[derive(Clone, Copy, Debug, PartialEq, Eq, Structural)]
pub struct Utxo {
    pub outpoint: OutPoint,
    pub value: u64,
    pub descriptor: u64,
}

/// An unspent output that carries an allocation, with the allocation's amount.
#[derive(Clone, Copy, Debug, PartialEq, Eq, Structural)]
pub struct AssetUtxo {
    pub utxo: Utxo,
    pub amount: u64,
}

/// An input of a transaction, and whether it carries its signature.
#[derive(Clone, Copy, Debug, PartialEq, Eq, Structural)]
pub struct PsbtInput {
    pub outpoint: OutPoint,
    pub value: u64,
    pub descriptor: u64,
    pub signed: bool,
}

/// An output of a transaction: its value, and the descriptor that receives it.
#[derive(Clone, Copy, Debug, PartialEq, Eq, Structural)]
pub struct PsbtOutput {
    pub value: u64,
    pub descriptor: u64,
}

/// Which of the wallet's outputs the composer takes first.
#[derive(Clone, Copy, Debug, PartialEq, Eq, Structural)]
pub enum UtxoFilter {
    /// No preference.
    Any,
    /// Outputs of exactly this value.
    AmountEqual(u64),
    /// This output.
    Outpoint(OutPoint),
}

/// A transaction under construction, with the state transition that it anchors.
#[derive(Clone, Debug, PartialEq, Eq)]
pub struct Psbt {
    pub inputs: Vec<PsbtInput>,
    pub outputs: Vec<PsbtOutput>,
    pub contract: Hash256,
    pub spends: Vec<Spend>,
    pub assignments: Vec<Assignment>,
}

/// What a PSBT holds, as mathematical values.
pub struct PsbtData {
    pub inputs: Seq<PsbtInput>,
    pub outputs: Seq<PsbtOutput>,
    pub contract: Hash256,
    pub spends: Seq<Spend>,
    pub assignments: Seq<Assignment>,
}

impl View for Psbt {
    type V = PsbtData;

    open spec fn view(&self) -> PsbtData {
        PsbtData {
            inputs: self.inputs@,
            outputs: self.outputs@,
            contract: self.contract,
            spends: self.spends@,
            assignments: self.assignments@,
        }
    }
}

/// Why a transaction could not be composed.
#[derive(Clone, Copy, Debug, PartialEq, Eq, Structural)]
pub enum ComposeError {
    /// A recipient names an output that the transaction does not have.
    InvalidSeal,
    /// All available inputs together do not cover the outputs and the fee.
    InsufficientFunds,
    /// The change does not fit in 64 bits.
    ValueOutOfRange,
}

/// Why two fragments could not be merged.
#[derive(Clone, Copy, Debug, PartialEq, Eq, Structural)]
pub enum MergeError {
    /// Both fragments spend the same output.
    Conflict,
    /// The fragments anchor transitions of different contracts.
    ContractMismatch,
    /// The merged transaction would have more outputs than an index can name.
    TooManyOutputs,
}

// ---------------------------------------------------------------------------
// Totals
// ---------------------------------------------------------------------------

/// The value that the inputs bring.
pub open spec fn input_total(inputs: Seq<PsbtInput>) -> nat
    decreases inputs.len(),
{
    if inputs.len() == 0 {
        0
    } else {
        input_total(inputs.drop_last()) + inputs.last().value as nat
    }
}

/// The value that the outputs take.
pub open spec fn output_total(outputs: Seq<PsbtOutput>) -> nat
    decreases outputs.len(),
{
    if outputs.len() == 0 {
        0
    } else {
        output_total(outputs.drop_last()) + outputs.last().value as nat
    }
}

proof fn lemma_input_total_bound(inputs: Seq<PsbtInput>)
    ensures
        input_total(inputs) <= inputs.len() * u64::MAX,
    decreases inputs.len(),
{
    if inputs.len() > 0 {
        lemma_input_total_bound(inputs.drop_last());
        assert((inputs.len() - 1) * u64::MAX + u64::MAX == inputs.len() * u64::MAX)
            by (nonlinear_arith);
    }
}

proof fn lemma_output_total_bound(outputs: Seq<PsbtOutput>)
    ensures
        output_total(outputs) <= outputs.len() * u64::MAX,
    decreases outputs.len(),
{
    if outputs.len() > 0 {
        lemma_output_total_bound(outputs.drop_last());
        assert((outputs.len() - 1) * u64::MAX + u64::MAX == outputs.len() * u64::MAX)
            by (nonlinear_arith);
    }
}

/// Adds up the value of the inputs.
pub fn total_in(inputs: &Vec<PsbtInput>) -> (t: u128)
    ensures
        t == input_total(inputs@),
{
    let mut t: u128 = 0;
    let mut i: usize = 0;
    while i < inputs.len()
        invariant
            i <= inputs.len(),
            t == input_total(inputs@.subrange(0, i as int)),
        decreases inputs.len() - i,
    {
        proof {
            lemma_input_total_bound(inputs@.subrange(0, i as int));
            lemma_sum_fits(i as nat, t as nat);
            assert(inputs@.subrange(0, i as int + 1).drop_last() =~= inputs@.subrange(0, i as int));
        }
        t = t + inputs[i].value as u128;
        i += 1;
    }
    assert(inputs@.subrange(0, i as int) =~= inputs@);
    t
}

/// Adds up the value of the outputs.
pub fn total_out(outputs: &Vec<PsbtOutput>) -> (t: u128)
    ensures
        t == output_total(outputs@),
{
    let mut t: u128 = 0;
    let mut i: usize = 0;
    while i < outputs.len()
        invariant
            i <= outputs.len(),
            t == output_total(outputs@.subrange(0, i as int)),
        decreases outputs.len() - i,
    {
        proof {
            lemma_output_total_bound(outputs@.subrange(0, i as int));
            lemma_sum_fits(i as nat, t as nat);
            assert(outputs@.subrange(0, i as int + 1).drop_last() =~= outputs@.subrange(
                0,
                i as int,
            ));
        }
        t = t + outputs[i].value as u128;
        i += 1;
    }
    assert(outputs@.subrange(0, i as int) =~= outputs@);
    t
}

// ---------------------------------------------------------------------------
// Composing
// ---------------------------------------------------------------------------

/// Whether the filter prefers this output.
pub open spec fn preferred(filter: UtxoFilter, u: Utxo) -> bool {
    match filter {
        UtxoFilter::Any => true,
        UtxoFilter::AmountEqual(v) => u.value == v,
        UtxoFilter::Outpoint(o) => u.outpoint == o,
    }
}

/// The unsigned input that spends an unspent output.
pub open spec fn input_of(u: Utxo) -> PsbtInput {
    PsbtInput { outpoint: u.outpoint, value: u.value, descriptor: u.descriptor, signed: false }
}

/// Whether one of the inputs spends this output.
pub open spec fn has_input(inputs: Seq<PsbtInput>, outpoint: OutPoint) -> bool {
    exists|i: int| 0 <= i < inputs.len() && (#[trigger] inputs[i]).outpoint == outpoint
}

/// The inputs that carry the allocations to spend, in their order.
pub open spec fn asset_inputs(assets: Seq<AssetUtxo>) -> Seq<PsbtInput> {
    Seq::new(assets.len(), |i: int| input_of(assets[i].utxo))
}

/// The allocations that the transition consumes, in the order of the asset inputs.
pub open spec fn asset_spends(assets: Seq<AssetUtxo>) -> Seq<Spend> {
    Seq::new(
        assets.len(),
        |i: int| Spend { outpoint: assets[i].utxo.outpoint, amount: assets[i].amount },
    )
}

/// One pass of coin selection over the wallet, in its order.
///
/// An output joins the inputs if the value chosen so far is below what is
/// needed, if the pass is for this kind of output (preferred or not), and if
/// no input spends it yet.
pub open spec fn select_pass(
    chosen: Seq<PsbtInput>,
    wallet: Seq<Utxo>,
    needed: nat,
    filter: UtxoFilter,
    want_preferred: bool,
) -> Seq<PsbtInput>
    decreases wallet.len(),
{
    if wallet.len() == 0 {
        chosen
    } else if input_total(chosen) < needed && preferred(filter, wallet[0]) == want_preferred
        && !has_input(chosen, wallet[0].outpoint) {
        select_pass(
            chosen.push(input_of(wallet[0])),
            wallet.drop_first(),
            needed,
            filter,
            want_preferred,
        )
    } else {
        select_pass(chosen, wallet.drop_first(), needed, filter, want_preferred)
    }
}

/// Coin selection: the asset-carrying inputs, then what the filter prefers,
/// then the rest, each only as far as needed.
pub open spec fn selected(
    assets: Seq<AssetUtxo>,
    wallet: Seq<Utxo>,
    needed: nat,
    filter: UtxoFilter,
) -> Seq<PsbtInput> {
    select_pass(
        select_pass(asset_inputs(assets), wallet, needed, filter, true),
        wallet,
        needed,
        filter,
        false,
    )
}

/// A pass of coin selection only adds: what was chosen before is chosen
/// after, in its place, and the value chosen does not shrink.
pub proof fn lemma_pass_extends(
    chosen: Seq<PsbtInput>,
    wallet: Seq<Utxo>,
    needed: nat,
    filter: UtxoFilter,
    want_preferred: bool,
)
    ensures
        chosen.len() <= select_pass(chosen, wallet, needed, filter, want_preferred).len(),
        forall|i: int|
            0 <= i < chosen.len() ==> select_pass(chosen, wallet, needed, filter, want_preferred)[i]
                == #[trigger] chosen[i],
        input_total(chosen) <= input_total(
            select_pass(chosen, wallet, needed, filter, want_preferred),
        ),
    decreases wallet.len(),
{
    if wallet.len() > 0 {
        if input_total(chosen) < needed && preferred(filter, wallet[0]) == want_preferred
            && !has_input(chosen, wallet[0].outpoint) {
            let next = chosen.push(input_of(wallet[0]));
            lemma_pass_extends(next, wallet.drop_first(), needed, filter, want_preferred);
            assert(next.drop_last() =~= chosen);
            assert forall|i: int| 0 <= i < chosen.len() implies select_pass(
                chosen,
                wallet,
                needed,
                filter,
                want_preferred,
            )[i] == #[trigger] chosen[i] by {
                assert(next[i] == chosen[i]);
            }
        } else {
            lemma_pass_extends(chosen, wallet.drop_first(), needed, filter, want_preferred);
        }
    }
}

/// A pass of coin selection that ends short of what is needed has taken every
/// output of its kind: each is among the inputs afterwards.
pub proof fn lemma_pass_takes_all(
    chosen: Seq<PsbtInput>,
    wallet: Seq<Utxo>,
    needed: nat,
    filter: UtxoFilter,
    want_preferred: bool,
)
    requires
        input_total(select_pass(chosen, wallet, needed, filter, want_preferred)) < needed,
    ensures
        forall|i: int|
            0 <= i < wallet.len() && preferred(filter, #[trigger] wallet[i]) == want_preferred
                ==> has_input(
                select_pass(chosen, wallet, needed, filter, want_preferred),
                wallet[i].outpoint,
            ),
    decreases wallet.len(),
{
    if wallet.len() > 0 {
        let result = select_pass(chosen, wallet, needed, filter, want_preferred);
        let rest = wallet.drop_first();
        let taken = input_total(chosen) < needed && preferred(filter, wallet[0])
            == want_preferred && !has_input(chosen, wallet[0].outpoint);
        let next = if taken {
            chosen.push(input_of(wallet[0]))
        } else {
            chosen
        };
        lemma_pass_takes_all(next, rest, needed, filter, want_preferred);
        lemma_pass_extends(next, rest, needed, filter, want_preferred);
        lemma_pass_extends(chosen, wallet, needed, filter, want_preferred);
        assert forall|i: int|
            0 <= i < wallet.len() && preferred(filter, #[trigger] wallet[i])
                == want_preferred implies has_input(result, wallet[i].outpoint) by {
            if i == 0 {
                if taken {
                    assert(next[chosen.len() as int].outpoint == wallet[0].outpoint);
                    assert(result[chosen.len() as int] == next[chosen.len() as int]);
                } else {
                    let k = choose|k: int|
                        0 <= k < chosen.len() && (#[trigger] chosen[k]).outpoint
                            == wallet[0].outpoint;
                    assert(result[k] == chosen[k]);
                }
            } else {
                assert(rest[i - 1] == wallet[i]);
            }
        }
    }
}

/// Coin selection falls short only where nothing is left to take: if the
/// inputs selected do not cover what is needed, every output of the wallet
/// and every asset-carrying output is among them, so no choice of outputs
/// would cover it.
pub proof fn lemma_short_selection_takes_all(
    assets: Seq<AssetUtxo>,
    wallet: Seq<Utxo>,
    needed: nat,
    filter: UtxoFilter,
)
    requires
        input_total(selected(assets, wallet, needed, filter)) < needed,
    ensures
        forall|i: int|
            0 <= i < wallet.len() ==> has_input(
                selected(assets, wallet, needed, filter),
                (#[trigger] wallet[i]).outpoint,
            ),
        forall|k: int|
            0 <= k < assets.len() ==> has_input(
                selected(assets, wallet, needed, filter),
                (#[trigger] assets[k]).utxo.outpoint,
            ),
{
    let carried = asset_inputs(assets);
    let first = select_pass(carried, wallet, needed, filter, true);
    let both = select_pass(first, wallet, needed, filter, false);
    lemma_pass_extends(carried, wallet, needed, filter, true);
    lemma_pass_extends(first, wallet, needed, filter, false);
    lemma_pass_takes_all(carried, wallet, needed, filter, true);
    lemma_pass_takes_all(first, wallet, needed, filter, false);
    assert forall|i: int| 0 <= i < wallet.len() implies has_input(
        both,
        (#[trigger] wallet[i]).outpoint,
    ) by {
        if preferred(filter, wallet[i]) {
            let k = choose|k: int|
                0 <= k < first.len() && (#[trigger] first[k]).outpoint == wallet[i].outpoint;
            assert(both[k] == first[k]);
        }
    }
    assert forall|k: int| 0 <= k < assets.len() implies has_input(
        both,
        (#[trigger] assets[k]).utxo.outpoint,
    ) by {
        assert(carried[k].outpoint == assets[k].utxo.outpoint);
        assert(first[k] == carried[k]);
        assert(both[k] == first[k]);
    }
}

/// Whether every recipient that names an output names one of the first `count` outputs.
pub open spec fn seals_resolve(recipients: Seq<Assignment>, count: nat) -> bool {
    forall|k: int|
        0 <= k < recipients.len() ==> ((#[trigger] recipients[k]).target matches SealTarget::Output(
            vout,
        ) ==> vout < count)
}

/// The outputs of the composed transaction: those asked for, then the change if there is any.
pub open spec fn with_change(outputs: Seq<PsbtOutput>, change: nat, descriptor: u64) -> Seq<
    PsbtOutput,
> {
    if change > 0 {
        outputs.push(PsbtOutput { value: change as u64, descriptor })
    } else {
        outputs
    }
}

/// The meaning of `compose`.
pub open spec fn compose_spec(
    contract: Hash256,
    assets: Seq<AssetUtxo>,
    wallet: Seq<Utxo>,
    recipients: Seq<Assignment>,
    outputs: Seq<PsbtOutput>,
    fee: u64,
    filter: UtxoFilter,
    change_descriptor: u64,
) -> Result<PsbtData, ComposeError> {
    let needed = output_total(outputs) + fee as nat;
    let inputs = selected(assets, wallet, needed, filter);
    if !seals_resolve(recipients, outputs.len()) {
        Err(ComposeError::InvalidSeal)
    } else if input_total(inputs) < needed {
        Err(ComposeError::InsufficientFunds)
    } else if input_total(inputs) - needed > u64::MAX {
        Err(ComposeError::ValueOutOfRange)
    } else {
        Ok(
            PsbtData {
                inputs,
                outputs: with_change(
                    outputs,
                    (input_total(inputs) - needed) as nat,
                    change_descriptor,
                ),
                contract,
                spends: asset_spends(assets),
                assignments: recipients,
            },
        )
    }
}

impl UtxoFilter {
    /// The filter that prefers outputs of exactly this value.
    pub fn with_amount_equal_than(amount: u64) -> (f: UtxoFilter)
        ensures
            f == UtxoFilter::AmountEqual(amount),
    {
        UtxoFilter::AmountEqual(amount)
    }

    /// The filter that prefers this output.
    pub fn with_outpoint(outpoint: OutPoint) -> (f: UtxoFilter)
        ensures
            f == UtxoFilter::Outpoint(outpoint),
    {
        UtxoFilter::Outpoint(outpoint)
    }
}

fn filter_prefers(filter: UtxoFilter, u: Utxo) -> (r: bool)
    ensures
        r == preferred(filter, u),
{
    match filter {
        UtxoFilter::Any => true,
        UtxoFilter::AmountEqual(v) => u.value == v,
        UtxoFilter::Outpoint(o) => u.outpoint == o,
    }
}

fn spends_output(inputs: &Vec<PsbtInput>, outpoint: OutPoint) -> (r: bool)
    ensures
        r == has_input(inputs@, outpoint),
{
    let mut i: usize = 0;
    while i < inputs.len()
        invariant
            i <= inputs.len(),
            forall|j: int| 0 <= j < i ==> (#[trigger] inputs@[j]).outpoint != outpoint,
        decreases inputs.len() - i,
    {
        if inputs[i].outpoint == outpoint {
            return true;
        }
        i += 1;
    }
    false
}

fn run_pass(
    chosen: &mut Vec<PsbtInput>,
    total: u128,
    wallet: &Vec<Utxo>,
    needed: u128,
    filter: UtxoFilter,
    want_preferred: bool,
) -> (t: u128)
    requires
        total == input_total(old(chosen)@),
    ensures
        final(chosen)@ == select_pass(old(chosen)@, wallet@, needed as nat, filter, want_preferred),
        t == input_total(final(chosen)@),
{
    let mut t = total;
    let mut i: usize = 0;
    assert(wallet@.subrange(0, wallet@.len() as int) =~= wallet@);
    while i < wallet.len()
        invariant
            i <= wallet.len(),
            t == input_total(chosen@),
            select_pass(
                chosen@,
                wallet@.subrange(i as int, wallet@.len() as int),
                needed as nat,
                filter,
                want_preferred,
            ) == select_pass(old(chosen)@, wallet@, needed as nat, filter, want_preferred),
        decreases wallet.len() - i,
    {
        let u = wallet[i];
        let count = chosen.len();
        proof {
            let rest = wallet@.subrange(i as int, wallet@.len() as int);
            assert(rest[0] == wallet@[i as int]);
            assert(rest.drop_first() =~= wallet@.subrange(i as int + 1, wallet@.len() as int));
            lemma_input_total_bound(chosen@);
            lemma_sum_fits(count as nat, t as nat);
        }
        if t < needed && filter_prefers(filter, u) == want_preferred && !spends_output(
            chosen,
            u.outpoint,
        ) {
            let ghost before = chosen@;
            chosen.push(
                PsbtInput {
                    outpoint: u.outpoint,
                    value: u.value,
                    descriptor: u.descriptor,
                    signed: false,
                },
            );
            proof {
                assert(chosen@.drop_last() =~= before);
            }
            t = t + u.value as u128;
        }
        i += 1;
    }
    t
}

/// Composes the transaction for a transfer.
///
/// The inputs are the outputs that carry the allocations to spend, followed by
/// outputs of the wallet, chosen as `selected` says, until they cover the
/// outputs asked for and the fee. What is left over returns as change on a
/// last output. The transition consumes the allocations on the asset inputs
/// and assigns what `recipients` says.
pub fn compose(
    contract: Hash256,
    assets: &Vec<AssetUtxo>,
    wallet: &Vec<Utxo>,
    recipients: &Vec<Assignment>,
    outputs: &Vec<PsbtOutput>,
    fee: u64,
    filter: UtxoFilter,
    change_descriptor: u64,
) -> (r: Result<Psbt, ComposeError>)
    ensures
        match r {
            Ok(p) => compose_spec(
                contract,
                assets@,
                wallet@,
                recipients@,
                outputs@,
                fee,
                filter,
                change_descriptor,
            ) == Ok::<PsbtData, ComposeError>(p@),
            Err(e) => compose_spec(
                contract,
                assets@,
                wallet@,
                recipients@,
                outputs@,
                fee,
                filter,
                change_descriptor,
            ) == Err::<PsbtData, ComposeError>(e),
        },
{
    let mut k: usize = 0;
    while k < recipients.len()
        invariant
            k <= recipients.len(),
            seals_resolve(recipients@.subrange(0, k as int), outputs@.len()),
        decreases recipients.len() - k,
    {
        match recipients[k].target {
            SealTarget::Output(vout) => {
                if vout as usize >= outputs.len() {
                    proof {
                        if seals_resolve(recipients@, outputs@.len()) {
                            assert(recipients@[k as int].target is Output);
                        }
                    }
                    return Err(ComposeError::InvalidSeal);
                }
            },
            SealTarget::Blinded(_) => {},
        }
        proof {
            let next = recipients@.subrange(0, k as int + 1);
            assert forall|j: int| 0 <= j < next.len() implies ((
            #[trigger] next[j]).target matches SealTarget::Output(vout) ==> vout < outputs@.len()) by {
                if j < k {
                    assert(recipients@.subrange(0, k as int)[j] == next[j]);
                }
            }
        }
        k += 1;
    }
    assert(recipients@.subrange(0, k as int) =~= recipients@);
    let asked = total_out(outputs);
    let count = outputs.len();
    proof {
        lemma_output_total_bound(outputs@);
        lemma_sum_fits(count as nat, asked as nat);
    }
    let needed: u128 = asked + fee as u128;
    let mut inputs: Vec<PsbtInput> = Vec::new();
    let mut spends: Vec<Spend> = Vec::new();
    let mut i: usize = 0;
    while i < assets.len()
        invariant
            i <= assets.len(),
            inputs@ == asset_inputs(assets@.subrange(0, i as int)),
            spends@ == asset_spends(assets@.subrange(0, i as int)),
        decreases assets.len() - i,
    {
        let a = assets[i];
        inputs.push(
            PsbtInput {
                outpoint: a.utxo.outpoint,
                value: a.utxo.value,
                descriptor: a.utxo.descriptor,
                signed: false,
            },
        );
        spends.push(Spend { outpoint: a.utxo.outpoint, amount: a.amount });
        assert(inputs@ =~= asset_inputs(assets@.subrange(0, i as int + 1)));
        assert(spends@ =~= asset_spends(assets@.subrange(0, i as int + 1)));
        i += 1;
    }
    assert(assets@.subrange(0, i as int) =~= assets@);
    let carried = total_in(&inputs);
    let first = run_pass(&mut inputs, carried, wallet, needed, filter, true);
    let total = run_pass(&mut inputs, first, wallet, needed, filter, false);
    if total < needed {
        return Err(ComposeError::InsufficientFunds);
    }
    let change: u128 = total - needed;
    if change > u64::MAX as u128 {
        return Err(ComposeError::ValueOutOfRange);
    }
    let mut all_outputs: Vec<PsbtOutput> = Vec::new();
    let mut j: usize = 0;
    while j < outputs.len()
        invariant
            j <= outputs.len(),
            all_outputs@ == outputs@.subrange(0, j as int),
        decreases outputs.len() - j,
    {
        all_outputs.push(outputs[j]);
        assert(all_outputs@ =~= outputs@.subrange(0, j as int + 1));
        j += 1;
    }
    assert(outputs@.subrange(0, j as int) =~= outputs@);
    if change > 0 {
        all_outputs.push(PsbtOutput { value: change as u64, descriptor: change_descriptor });
    }
    let assignments = copy_assignments(recipients);
    Ok(Psbt { inputs, outputs: all_outputs, contract, spends, assignments })
}

/// A copy of a list of assignments.
pub fn copy_assignments(list: &Vec<Assignment>) -> (r: Vec<Assignment>)
    ensures
        r@ == list@,
{
    let mut r: Vec<Assignment> = Vec::new();
    let mut i: usize = 0;
    while i < list.len()
        invariant
            i <= list.len(),
            r@ == list@.subrange(0, i as int),
        decreases list.len() - i,
    {
        r.push(list[i]);
        assert(r@ =~= list@.subrange(0, i as int + 1));
        i += 1;
    }
    assert(list@.subrange(0, i as int) =~= list@);
    r
}

/// A copy of a PSBT.
pub fn copy_psbt(p: &Psbt) -> (r: Psbt)
    ensures
        r@ == p@,
{
    let mut inputs: Vec<PsbtInput> = Vec::new();
    let mut i: usize = 0;
    while i < p.inputs.len()
        invariant
            i <= p.inputs.len(),
            inputs@ == p.inputs@.subrange(0, i as int),
        decreases p.inputs.len() - i,
    {
        inputs.push(p.inputs[i]);
        assert(inputs@ =~= p.inputs@.subrange(0, i as int + 1));
        i += 1;
    }
    assert(p.inputs@.subrange(0, i as int) =~= p.inputs@);
    let mut outputs: Vec<PsbtOutput> = Vec::new();
    let mut j: usize = 0;
    while j < p.outputs.len()
        invariant
            j <= p.outputs.len(),
            outputs@ == p.outputs@.subrange(0, j as int),
        decreases p.outputs.len() - j,
    {
        outputs.push(p.outputs[j]);
        assert(outputs@ =~= p.outputs@.subrange(0, j as int + 1));
        j += 1;
    }
    assert(p.outputs@.subrange(0, j as int) =~= p.outputs@);
    Psbt {
        inputs,
        outputs,
        contract: p.contract,
        spends: copy_spends(&p.spends),
        assignments: copy_assignments(&p.assignments),
    }
}

/// A copy of a list of spends.
pub fn copy_spends(list: &Vec<Spend>) -> (r: Vec<Spend>)
    ensures
        r@ == list@,
{
    let mut r: Vec<Spend> = Vec::new();
    let mut i: usize = 0;
    while i < list.len()
        invariant
            i <= list.len(),
            r@ == list@.subrange(0, i as int),
        decreases list.len() - i,
    {
        r.push(list[i]);
        assert(r@ =~= list@.subrange(0, i as int + 1));
        i += 1;
    }
    assert(list@.subrange(0, i as int) =~= list@);
    r
}

// ---------------------------------------------------------------------------
// Merging
// ---------------------------------------------------------------------------

/// Whether both lists spend some output.
pub open spec fn inputs_conflict(a: Seq<PsbtInput>, b: Seq<PsbtInput>) -> bool {
    exists|i: int| 0 <= i < b.len() && has_input(a, (#[trigger] b[i]).outpoint)
}

/// An assignment of the second fragment, as it reads in the merged
/// transaction: an output index moves up by the first fragment's outputs.
pub open spec fn shifted(a: Assignment, by: nat) -> Assignment {
    match a.target {
        SealTarget::Output(vout) => Assignment {
            target: SealTarget::Output((vout + by) as u32),
            amount: a.amount,
        },
        SealTarget::Blinded(_) => a,
    }
}

/// Whether every output index of the assignments, moved up by `by`, is still an index.
pub open spec fn shift_fits(list: Seq<Assignment>, by: nat) -> bool {
    forall|k: int|
        0 <= k < list.len() ==> ((#[trigger] list[k]).target matches SealTarget::Output(vout)
            ==> vout + by <= u32::MAX)
}

/// The meaning of `merge`.
pub open spec fn merge_spec(a: PsbtData, b: PsbtData) -> Result<PsbtData, MergeError> {
    if a.contract != b.contract {
        Err(MergeError::ContractMismatch)
    } else if inputs_conflict(a.inputs, b.inputs) {
        Err(MergeError::Conflict)
    } else if !shift_fits(b.assignments, a.outputs.len()) {
        Err(MergeError::TooManyOutputs)
    } else {
        Ok(
            PsbtData {
                inputs: a.inputs + b.inputs,
                outputs: a.outputs + b.outputs,
                contract: a.contract,
                spends: a.spends + b.spends,
                assignments: a.assignments + Seq::new(
                    b.assignments.len(),
                    |k: int| shifted(b.assignments[k], a.outputs.len()),
                ),
            },
        )
    }
}

/// Merges the fragments of two parties into one transaction.
///
/// The inputs, outputs, spends and assignments of `a` come first, those of `b`
/// after them; every input keeps the signature it carries. An output index
/// among the assignments of `b` moves up by the number of outputs of `a`.
/// Fragments of one contract fail to merge with `Conflict` if and only if
/// both spend the same output.
pub fn merge(a: &Psbt, b: &Psbt) -> (r: Result<Psbt, MergeError>)
    ensures
        match r {
            Ok(p) => merge_spec(a@, b@) == Ok::<PsbtData, MergeError>(p@),
            Err(e) => merge_spec(a@, b@) == Err::<PsbtData, MergeError>(e),
        },
{
    if a.contract != b.contract {
        return Err(MergeError::ContractMismatch);
    }
    let mut inputs: Vec<PsbtInput> = Vec::new();
    let mut i: usize = 0;
    while i < a.inputs.len()
        invariant
            i <= a.inputs.len(),
            inputs@ == a.inputs@.subrange(0, i as int),
        decreases a.inputs.len() - i,
    {
        inputs.push(a.inputs[i]);
        assert(inputs@ =~= a.inputs@.subrange(0, i as int + 1));
        i += 1;
    }
    assert(a.inputs@.subrange(0, i as int) =~= a.inputs@);
    let mut j: usize = 0;
    while j < b.inputs.len()
        invariant
            j <= b.inputs.len(),
            a.contract == b.contract,
            inputs@ == a.inputs@ + b.inputs@.subrange(0, j as int),
            forall|k: int| 0 <= k < j ==> !has_input(a.inputs@, (#[trigger] b.inputs@[k]).outpoint),
        decreases b.inputs.len() - j,
    {
        if spends_output(&a.inputs, b.inputs[j].outpoint) {
            assert(has_input(a.inputs@, b.inputs@[j as int].outpoint));
            return Err(MergeError::Conflict);
        }
        inputs.push(b.inputs[j]);
        assert(inputs@ =~= a.inputs@ + b.inputs@.subrange(0, j as int + 1));
        j += 1;
    }
    assert(b.inputs@.subrange(0, j as int) =~= b.inputs@);
    assert(!inputs_conflict(a.inputs@, b.inputs@));
    let by = a.outputs.len();
    let mut assignments = copy_assignments(&a.assignments);
    let mut k: usize = 0;
    while k < b.assignments.len()
        invariant
            k <= b.assignments.len(),
            by == a.outputs@.len(),
            a.contract == b.contract,
            !inputs_conflict(a.inputs@, b.inputs@),
            shift_fits(b.assignments@.subrange(0, k as int), by as nat),
            assignments@ == a.assignments@ + Seq::new(
                k as nat,
                |n: int| shifted(b.assignments@[n], by as nat),
            ),
        decreases b.assignments.len() - k,
    {
        let x = b.assignments[k];
        let moved = match x.target {
            SealTarget::Output(vout) => {
                if by > u32::MAX as usize || vout > u32::MAX - by as u32 {
                    proof {
                        if shift_fits(b.assignments@, by as nat) {
                            assert(b.assignments@[k as int].target is Output);
                        }
                    }
                    return Err(MergeError::TooManyOutputs);
                }
                Assignment { target: SealTarget::Output(vout + by as u32), amount: x.amount }
            },
            SealTarget::Blinded(_) => x,
        };
        assignments.push(moved);
        proof {
            assert(assignments@ =~= a.assignments@ + Seq::new(
                (k + 1) as nat,
                |n: int| shifted(b.assignments@[n], by as nat),
            ));
            let next = b.assignments@.subrange(0, k as int + 1);
            assert forall|n: int| 0 <= n < next.len() implies ((
            #[trigger] next[n]).target matches SealTarget::Output(vout) ==> vout + by
                <= u32::MAX) by {
                if n < k {
                    assert(b.assignments@.subrange(0, k as int)[n] == next[n]);
                }
            }
        }
        k += 1;
    }
    assert(b.assignments@.subrange(0, k as int) =~= b.assignments@);
    let mut outputs: Vec<PsbtOutput> = Vec::new();
    let mut m: usize = 0;
    while m < a.outputs.len()
        invariant
            m <= a.outputs.len(),
            outputs@ == a.outputs@.subrange(0, m as int),
        decreases a.outputs.len() - m,
    {
        outputs.push(a.outputs[m]);
        assert(outputs@ =~= a.outputs@.subrange(0, m as int + 1));
        m += 1;
    }
    assert(a.outputs@.subrange(0, m as int) =~= a.outputs@);
    let mut n: usize = 0;
    while n < b.outputs.len()
        invariant
            n <= b.outputs.len(),
            outputs@ == a.outputs@ + b.outputs@.subrange(0, n as int),
        decreases b.outputs.len() - n,
    {
        outputs.push(b.outputs[n]);
        assert(outputs@ =~= a.outputs@ + b.outputs@.subrange(0, n as int + 1));
        n += 1;
    }
    assert(b.outputs@.subrange(0, n as int) =~= b.outputs@);
    let mut spends = copy_spends(&a.spends);
    let mut s: usize = 0;
    while s < b.spends.len()
        invariant
            s <= b.spends.len(),
            spends@ == a.spends@ + b.spends@.subrange(0, s as int),
        decreases b.spends.len() - s,
    {
        spends.push(b.spends[s]);
        assert(spends@ =~= a.spends@ + b.spends@.subrange(0, s as int + 1));
        s += 1;
    }
    assert(b.spends@.subrange(0, s as int) =~= b.spends@);
    Ok(Psbt { inputs, outputs, contract: a.contract, spends, assignments })
}

// ---------------------------------------------------------------------------
// The transaction id and the consignment
// ---------------------------------------------------------------------------

/// The bytes of the outputs that the inputs spend, one after the other.
pub open spec fn inputs_bytes(inputs: Seq<PsbtInput>) -> Seq<u8>
    decreases inputs.len(),
{
    if inputs.len() == 0 {
        Seq::<u8>::empty()
    } else {
        inputs_bytes(inputs.drop_last()) + outpoint_bytes(inputs.last().outpoint)
    }
}

/// The bytes of the outputs, one after the other: value, then descriptor.
pub open spec fn outputs_bytes(outputs: Seq<PsbtOutput>) -> Seq<u8>
    decreases outputs.len(),
{
    if outputs.len() == 0 {
        Seq::<u8>::empty()
    } else {
        outputs_bytes(outputs.drop_last()) + (be_bytes(outputs.last().value as nat, 8) + be_bytes(
            outputs.last().descriptor as nat,
            8,
        ))
    }
}

/// The bytes that identify a transaction: what it spends and what it creates,
/// each list with its length in front. Signatures are no part of them.
pub open spec fn transaction_bytes(inputs: Seq<PsbtInput>, outputs: Seq<PsbtOutput>) -> Seq<u8> {
    be_bytes(inputs.len(), 8) + inputs_bytes(inputs) + be_bytes(outputs.len(), 8) + outputs_bytes(
        outputs,
    )
}

/// The id of a transaction: the SHA-256 digest of the bytes that identify it.
pub open spec fn txid_of(inputs: Seq<PsbtInput>, outputs: Seq<PsbtOutput>) -> Hash256 {
    sha256_id(transaction_bytes(inputs, outputs))
}

impl PsbtData {
    /// The id of the transaction.
    pub open spec fn txid(self) -> Hash256 {
        txid_of(self.inputs, self.outputs)
    }

    /// What is wrong with a transition that does not balance: both totals.
    pub open spec fn imbalance(self) -> InvalidTransition {
        InvalidTransition {
            consumed: spent_total(self.spends) as u128,
            assigned: assigned_total(self.assignments) as u128,
        }
    }

    /// The consignment of the transition that the transaction anchors.
    pub open spec fn consignment(self) -> ConsignmentData {
        ConsignmentData {
            id: commitment_of(self.contract, self.txid(), self.spends, self.assignments),
            contract: self.contract,
            anchor: self.txid(),
            inputs: self.spends,
            outputs: self.assignments,
        }
    }
}

impl Psbt {
    /// The id of the transaction. It does not depend on the signatures.
    pub fn txid(&self) -> (id: Hash256)
        ensures
            id == self@.txid(),
    {
        let mut buf: Vec<u8> = Vec::new();
        push_be(&mut buf, self.inputs.len() as u64, 8);
        let ghost head = buf@;
        let mut i: usize = 0;
        assert(buf@ =~= head + inputs_bytes(self.inputs@.subrange(0, 0)));
        while i < self.inputs.len()
            invariant
                i <= self.inputs.len(),
                buf@ == head + inputs_bytes(self.inputs@.subrange(0, i as int)),
            decreases self.inputs.len() - i,
        {
            let ghost before = buf@;
            self.inputs[i].outpoint.write_to(&mut buf);
            proof {
                let next = self.inputs@.subrange(0, i as int + 1);
                assert(next.drop_last() =~= self.inputs@.subrange(0, i as int));
                assert(next.last() == self.inputs@[i as int]);
                assert(buf@ =~= head + inputs_bytes(next));
            }
            i += 1;
        }
        assert(self.inputs@.subrange(0, i as int) =~= self.inputs@);
        push_be(&mut buf, self.outputs.len() as u64, 8);
        let ghost middle = buf@;
        let mut j: usize = 0;
        assert(buf@ =~= middle + outputs_bytes(self.outputs@.subrange(0, 0)));
        while j < self.outputs.len()
            invariant
                j <= self.outputs.len(),
                buf@ == middle + outputs_bytes(self.outputs@.subrange(0, j as int)),
            decreases self.outputs.len() - j,
        {
            let ghost before = buf@;
            push_be(&mut buf, self.outputs[j].value, 8);
            push_be(&mut buf, self.outputs[j].descriptor, 8);
            proof {
                let next = self.outputs@.subrange(0, j as int + 1);
                assert(next.drop_last() =~= self.outputs@.subrange(0, j as int));
                assert(next.last() == self.outputs@[j as int]);
                assert(buf@ =~= before + (be_bytes(self.outputs@[j as int].value as nat, 8)
                    + be_bytes(self.outputs@[j as int].descriptor as nat, 8)));
                assert(buf@ =~= middle + outputs_bytes(next));
            }
            j += 1;
        }
        assert(self.outputs@.subrange(0, j as int) =~= self.outputs@);
        assert(buf@ =~= transaction_bytes(self.inputs@, self.outputs@));
        digest_id(&buf)
    }

    /// Packages the transition with the transaction as its anchor.
    ///
    /// Fails with `InvalidTransition` if and only if the transition does not balance.
    pub fn build_consignment(&self) -> (r: Result<Consignment, InvalidTransition>)
        ensures
            match r {
                Ok(c) => balanced(self@.spends, self@.assignments) && c@ == self@.consignment(),
                Err(e) => !balanced(self@.spends, self@.assignments) && e == self@.imbalance(),
            },
    {
        let anchor = self.txid();
        Consignment::build(
            self.contract,
            anchor,
            copy_spends(&self.spends),
            copy_assignments(&self.assignments),
        )
    }
}

/// The output of the wallet at a place: the last one listed there, if any is.
pub open spec fn utxo_at(wallet: Seq<Utxo>, outpoint: OutPoint) -> Option<Utxo>
    decreases wallet.len(),
{
    if wallet.len() == 0 {
        None
    } else if wallet.last().outpoint == outpoint {
        Some(wallet.last())
    } else {
        utxo_at(wallet.drop_last(), outpoint)
    }
}

/// The outputs that carry the allocations to spend: for each spend, in their
/// order, the output of the wallet at its place, with the amount it carries.
/// There are none if the wallet lacks one of the outputs.
pub open spec fn carriers_spec(wallet: Seq<Utxo>, spends: Seq<Spend>) -> Option<Seq<AssetUtxo>>
    decreases spends.len(),
{
    if spends.len() == 0 {
        Some(Seq::empty())
    } else {
        match (carriers_spec(wallet, spends.drop_last()), utxo_at(wallet, spends.last().outpoint)) {
            (Some(found), Some(utxo)) => Some(
                found.push(AssetUtxo { utxo, amount: spends.last().amount }),
            ),
            _ => None,
        }
    }
}

/// Once a part of the spends has no carrier, the whole has none.
proof fn lemma_carriers_missing_stays(wallet: Seq<Utxo>, spends: Seq<Spend>, upto: int)
    requires
        0 <= upto <= spends.len(),
        carriers_spec(wallet, spends.subrange(0, upto)) is None,
    ensures
        carriers_spec(wallet, spends) is None,
    decreases spends.len() - upto,
{
    if upto == spends.len() {
        assert(spends.subrange(0, upto) =~= spends);
    } else {
        assert(spends.subrange(0, upto + 1).drop_last() =~= spends.subrange(0, upto));
        lemma_carriers_missing_stays(wallet, spends, upto + 1);
    }
}

fn find_utxo(wallet: &Vec<Utxo>, outpoint: OutPoint) -> (r: Option<Utxo>)
    ensures
        r == utxo_at(wallet@, outpoint),
{
    let mut r: Option<Utxo> = None;
    let mut i: usize = 0;
    while i < wallet.len()
        invariant
            i <= wallet.len(),
            r == utxo_at(wallet@.subrange(0, i as int), outpoint),
        decreases wallet.len() - i,
    {
        proof {
            assert(wallet@.subrange(0, i as int + 1).drop_last() =~= wallet@.subrange(0, i as int));
        }
        if wallet[i].outpoint == outpoint {
            r = Some(wallet[i]);
        }
        i += 1;
    }
    assert(wallet@.subrange(0, i as int) =~= wallet@);
    r
}

/// Finds in the wallet the outputs that carry the allocations to spend.
pub fn carriers(wallet: &Vec<Utxo>, spends: &Vec<Spend>) -> (r: Option<Vec<AssetUtxo>>)
    ensures
        match r {
            Some(found) => carriers_spec(wallet@, spends@) == Some(found@),
            None => carriers_spec(wallet@, spends@) is None,
        },
{
    let mut found: Vec<AssetUtxo> = Vec::new();
    let mut k: usize = 0;
    assert(spends@.subrange(0, 0) =~= Seq::<Spend>::empty());
    while k < spends.len()
        invariant
            k <= spends.len(),
            carriers_spec(wallet@, spends@.subrange(0, k as int)) == Some(found@),
        decreases spends.len() - k,
    {
        proof {
            assert(spends@.subrange(0, k as int + 1).drop_last() =~= spends@.subrange(0, k as int));
            assert(spends@.subrange(0, k as int + 1).last() == spends@[k as int]);
        }
        match find_utxo(wallet, spends[k].outpoint) {
            Some(utxo) => {
                found.push(AssetUtxo { utxo, amount: spends[k].amount });
            },
            None => {
                proof {
                    lemma_carriers_missing_stays(wallet@, spends@, k as int + 1);
                }
                return None;
            },
        }
        k += 1;
    }
    assert(spends@.subrange(0, k as int) =~= spends@);
    Some(found)
}

/// The transactions of a list, as values.
pub open spec fn psbts_data(list: Seq<Psbt>) -> Seq<PsbtData> {
    Seq::new(list.len(), |i: int| list[i]@)
}

/// The consignments of a list, as values.
pub open spec fn consignments_data(list: Seq<Consignment>) -> Seq<ConsignmentData> {
    Seq::new(list.len(), |i: int| list[i]@)
}

/// The consignments of several transfers that are made together: one for
/// each transaction, in their order, or the imbalance of the first
/// transition that does not balance.
pub open spec fn transfers_spec(list: Seq<PsbtData>) -> Result<
    Seq<ConsignmentData>,
    InvalidTransition,
>
    decreases list.len(),
{
    if list.len() == 0 {
        Ok(Seq::empty())
    } else {
        match transfers_spec(list.drop_last()) {
            Err(e) => Err(e),
            Ok(made) => if balanced(list.last().spends, list.last().assignments) {
                Ok(made.push(list.last().consignment()))
            } else {
                Err(list.last().imbalance())
            },
        }
    }
}

/// Once a part of the transfers has failed, the whole fails the same way.
proof fn lemma_transfers_failure_stays(list: Seq<PsbtData>, upto: int)
    requires
        0 <= upto <= list.len(),
        transfers_spec(list.subrange(0, upto)) is Err,
    ensures
        transfers_spec(list) == transfers_spec(list.subrange(0, upto)),
    decreases list.len() - upto,
{
    if upto == list.len() {
        assert(list.subrange(0, upto) =~= list);
    } else {
        assert(list.subrange(0, upto + 1).drop_last() =~= list.subrange(0, upto));
        lemma_transfers_failure_stays(list, upto + 1);
    }
}

/// Builds the consignments of several transfers that belong together, all
/// of them or none.
///
/// Fails if and only if one of the transitions does not balance, with the
/// imbalance of the first that does not; no consignment is handed out then.
pub fn transfer_assets(psbts: &Vec<Psbt>) -> (r: Result<Vec<Consignment>, InvalidTransition>)
    ensures
        match r {
            Ok(made) => transfers_spec(psbts_data(psbts@)) == Ok::<
                Seq<ConsignmentData>,
                InvalidTransition,
            >(consignments_data(made@)),
            Err(e) => transfers_spec(psbts_data(psbts@)) == Err::<
                Seq<ConsignmentData>,
                InvalidTransition,
            >(e),
        },
{
    let mut made: Vec<Consignment> = Vec::new();
    let ghost all = psbts_data(psbts@);
    let mut i: usize = 0;
    assert(consignments_data(made@) =~= Seq::<ConsignmentData>::empty());
    assert(all.subrange(0, 0) =~= Seq::<PsbtData>::empty());
    while i < psbts.len()
        invariant
            i <= psbts.len(),
            all == psbts_data(psbts@),
            made@.len() == i,
            transfers_spec(all.subrange(0, i as int)) == Ok::<
                Seq<ConsignmentData>,
                InvalidTransition,
            >(consignments_data(made@)),
        decreases psbts.len() - i,
    {
        proof {
            assert(all.subrange(0, i as int + 1).drop_last() =~= all.subrange(0, i as int));
            assert(all.subrange(0, i as int + 1).last() == psbts@[i as int]@);
        }
        let ghost before = consignments_data(made@);
        match psbts[i].build_consignment() {
            Ok(c) => {
                made.push(c);
                assert(consignments_data(made@) =~= before.push(psbts@[i as int]@.consignment()));
            },
            Err(e) => {
                proof {
                    lemma_transfers_failure_stays(all, i as int + 1);
                }
                return Err(e);
            },
        }
        i += 1;
    }
    assert(all.subrange(0, i as int) =~= all);
    Ok(made)
}

} // verus!
