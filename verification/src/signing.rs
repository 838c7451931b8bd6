//! Signing coordination: which inputs a set of keys signs, when a transaction
//! is complete, and what a relay's answer to a broadcast means.
//!
//! Signatures themselves are made outside; here an input records whether it
//! carries one, and a key is known by the descriptor it belongs to.

use vstd::prelude::*;
use crate::ids::{Hash256, OutPoint};
use crate::psbt::{inputs_bytes, Psbt, PsbtData, PsbtInput, PsbtOutput};

verus! {

/// A PSBT after a signing round, with whether it is now complete.
#[derive(Clone, Debug, PartialEq, Eq)]
pub struct SignedPsbt {
    pub psbt: Psbt,
    /// Whether every input carries its signature.
    pub sign: bool,
}

/// A transaction that is ready for broadcast.
#[derive(Clone, Debug, PartialEq, Eq)]
pub struct FinalTx {
    pub txid: Hash256,
    pub inputs: Vec<OutPoint>,
    pub outputs: Vec<PsbtOutput>,
}

/// Why a transaction could not be finalized.
#[derive(Clone, Copy, Debug, PartialEq, Eq, Structural)]
pub enum SigningError {
    /// An input lacks its signature; `input` is the first that does.
    IncompleteSigning { input: usize },
}

/// What a relay answers to a broadcast.
#[derive(Clone, Copy, Debug, PartialEq, Eq, Structural)]
pub enum RelayResponse {
    /// The transaction entered the mempool.
    Accepted,
    /// The transaction conflicts with one in the mempool.
    MempoolConflict,
    /// The fee is below what the relay asks.
    FeeTooLow,
    /// The relay refused for another reason.
    Refused,
}

/// Why a relay turned a broadcast down.
#[derive(Clone, Copy, Debug, PartialEq, Eq, Structural)]
pub enum RelayRefusal {
    MempoolConflict,
    FeeTooLow,
    Other,
}

/// A failure of the network. All of them may be tried again.
#[derive(Clone, Copy, Debug, PartialEq, Eq, Structural)]
pub enum NetworkError {
    /// The backend did not answer within the time the caller allowed.
    BackendTimeout,
    /// The relay refused the transaction.
    BroadcastRejected(RelayRefusal),
}

/// The inputs after a signing round with the keys of `descriptors`: an input
/// is signed if it was signed before, or if its descriptor is among them.
pub open spec fn signed_with(inputs: Seq<PsbtInput>, descriptors: Seq<u64>) -> Seq<PsbtInput> {
    Seq::new(
        inputs.len(),
        |i: int|
            PsbtInput {
                outpoint: inputs[i].outpoint,
                value: inputs[i].value,
                descriptor: inputs[i].descriptor,
                signed: inputs[i].signed || descriptors.contains(inputs[i].descriptor),
            },
    )
}

/// Whether every input carries its signature.
pub open spec fn fully_signed(inputs: Seq<PsbtInput>) -> bool {
    forall|i: int| 0 <= i < inputs.len() ==> (#[trigger] inputs[i]).signed
}

/// The outputs that the inputs spend, in their order.
pub open spec fn spent_outputs(inputs: Seq<PsbtInput>) -> Seq<OutPoint> {
    Seq::new(inputs.len(), |i: int| inputs[i].outpoint)
}

/// The PSBT after a signing round.
pub open spec fn signed_psbt(p: PsbtData, descriptors: Seq<u64>) -> PsbtData {
    PsbtData {
        inputs: signed_with(p.inputs, descriptors),
        outputs: p.outputs,
        contract: p.contract,
        spends: p.spends,
        assignments: p.assignments,
    }
}

/// The meaning of `publish_outcome`.
pub open spec fn publish_spec(txid: Hash256, response: Option<RelayResponse>) -> Result<
    Hash256,
    NetworkError,
> {
    match response {
        None => Err(NetworkError::BackendTimeout),
        Some(RelayResponse::Accepted) => Ok(txid),
        Some(RelayResponse::MempoolConflict) => Err(
            NetworkError::BroadcastRejected(RelayRefusal::MempoolConflict),
        ),
        Some(RelayResponse::FeeTooLow) => Err(
            NetworkError::BroadcastRejected(RelayRefusal::FeeTooLow),
        ),
        Some(RelayResponse::Refused) => Err(NetworkError::BroadcastRejected(RelayRefusal::Other)),
    }
}

/// Signing rounds compose: two parties signing one after the other leave the
/// same signatures as one party with the keys of both.
pub proof fn lemma_signing_composes(inputs: Seq<PsbtInput>, first: Seq<u64>, second: Seq<u64>)
    ensures
        signed_with(signed_with(inputs, first), second) == signed_with(inputs, first + second),
{
    assert forall|i: int| 0 <= i < inputs.len() implies signed_with(
        signed_with(inputs, first),
        second,
    )[i] == signed_with(inputs, first + second)[i] by {
        let d = inputs[i].descriptor;
        if first.contains(d) {
            let k = choose|k: int| 0 <= k < first.len() && first[k] == d;
            assert((first + second)[k] == d);
        }
        if second.contains(d) {
            let k = choose|k: int| 0 <= k < second.len() && second[k] == d;
            assert((first + second)[first.len() + k] == d);
        }
        if (first + second).contains(d) {
            let k = choose|k: int| 0 <= k < (first + second).len() && (first + second)[k] == d;
            if k < first.len() {
                assert(first[k] == d);
            } else {
                assert(second[k - first.len()] == d);
            }
        }
    }
    assert(signed_with(signed_with(inputs, first), second) =~= signed_with(inputs, first + second));
}

/// A signing round leaves the transaction's id as it is: a consignment that
/// was built before signing is still anchored in the transaction afterwards.
pub proof fn lemma_signing_keeps_txid(p: PsbtData, descriptors: Seq<u64>)
    ensures
        signed_psbt(p, descriptors).txid() == p.txid(),
        signed_psbt(p, descriptors).consignment() == p.consignment(),
{
    lemma_signed_inputs_bytes(p.inputs, descriptors);
}

/// Signatures are no part of the bytes that identify a transaction.
proof fn lemma_signed_inputs_bytes(inputs: Seq<PsbtInput>, descriptors: Seq<u64>)
    ensures
        inputs_bytes(signed_with(inputs, descriptors)) == inputs_bytes(inputs),
    decreases inputs.len(),
{
    if inputs.len() > 0 {
        lemma_signed_inputs_bytes(inputs.drop_last(), descriptors);
        assert(signed_with(inputs, descriptors).drop_last() =~= signed_with(
            inputs.drop_last(),
            descriptors,
        ));
    }
}

fn has_key(descriptors: &Vec<u64>, d: u64) -> (r: bool)
    ensures
        r == descriptors@.contains(d),
{
    let mut i: usize = 0;
    while i < descriptors.len()
        invariant
            i <= descriptors.len(),
            forall|j: int| 0 <= j < i ==> descriptors@[j] != d,
        decreases descriptors.len() - i,
    {
        if descriptors[i] == d {
            return true;
        }
        i += 1;
    }
    false
}

/// Signs every input that one of the descriptors controls.
///
/// Inputs of other descriptors stay as they are: that is no error, another
/// party signs them in its own round.
pub fn sign(psbt: Psbt, descriptors: &Vec<u64>) -> (r: SignedPsbt)
    ensures
        r.psbt@ == signed_psbt(psbt@, descriptors@),
        r.sign == fully_signed(r.psbt@.inputs),
{
    let mut p = psbt;
    let mut complete = true;
    let mut i: usize = 0;
    let n = p.inputs.len();
    while i < n
        invariant
            i <= n,
            n == p.inputs@.len(),
            n == psbt.inputs@.len(),
            p.outputs == psbt.outputs,
            p.contract == psbt.contract,
            p.spends == psbt.spends,
            p.assignments == psbt.assignments,
            forall|j: int|
                0 <= j < i ==> #[trigger] p.inputs@[j] == signed_with(psbt.inputs@, descriptors@)[j],
            forall|j: int| i <= j < n ==> #[trigger] p.inputs@[j] == psbt.inputs@[j],
            complete <==> forall|j: int|
                0 <= j < i ==> (#[trigger] signed_with(psbt.inputs@, descriptors@)[j]).signed,
        decreases n - i,
    {
        let input = p.inputs[i];
        let signed = input.signed || has_key(descriptors, input.descriptor);
        assert(input == psbt.inputs@[i as int]);
        assert(signed_with(psbt.inputs@, descriptors@)[i as int].signed == signed);
        p.inputs.set(
            i,
            PsbtInput {
                outpoint: input.outpoint,
                value: input.value,
                descriptor: input.descriptor,
                signed,
            },
        );
        if !signed {
            complete = false;
        }
        i += 1;
    }
    assert(p.inputs@ =~= signed_with(psbt.inputs@, descriptors@));
    SignedPsbt { psbt: p, sign: complete }
}

/// Turns a completely signed PSBT into a transaction.
///
/// Fails with `IncompleteSigning` if and only if an input lacks its signature.
pub fn finalize(psbt: &Psbt) -> (r: Result<FinalTx, SigningError>)
    ensures
        match r {
            Ok(tx) => fully_signed(psbt@.inputs) && tx.txid == psbt@.txid() && tx.inputs@
                == spent_outputs(psbt@.inputs) && tx.outputs@ == psbt@.outputs,
            Err(SigningError::IncompleteSigning { input }) => input < psbt@.inputs.len()
                && !psbt@.inputs[input as int].signed && forall|j: int|
                0 <= j < input ==> (#[trigger] psbt@.inputs[j]).signed,
        },
{
    let mut inputs: Vec<OutPoint> = Vec::new();
    let mut i: usize = 0;
    while i < psbt.inputs.len()
        invariant
            i <= psbt.inputs.len(),
            inputs@ == spent_outputs(psbt.inputs@.subrange(0, i as int)),
            forall|j: int| 0 <= j < i ==> (#[trigger] psbt.inputs@[j]).signed,
        decreases psbt.inputs.len() - i,
    {
        if !psbt.inputs[i].signed {
            return Err(SigningError::IncompleteSigning { input: i });
        }
        inputs.push(psbt.inputs[i].outpoint);
        assert(inputs@ =~= spent_outputs(psbt.inputs@.subrange(0, i as int + 1)));
        i += 1;
    }
    assert(psbt.inputs@.subrange(0, i as int) =~= psbt.inputs@);
    let mut outputs: Vec<PsbtOutput> = Vec::new();
    let mut j: usize = 0;
    while j < psbt.outputs.len()
        invariant
            j <= psbt.outputs.len(),
            outputs@ == psbt.outputs@.subrange(0, j as int),
        decreases psbt.outputs.len() - j,
    {
        outputs.push(psbt.outputs[j]);
        assert(outputs@ =~= psbt.outputs@.subrange(0, j as int + 1));
        j += 1;
    }
    assert(psbt.outputs@.subrange(0, j as int) =~= psbt.outputs@);
    Ok(FinalTx { txid: psbt.txid(), inputs, outputs })
}

/// Reads the answer to a broadcast: the transaction's id if the relay took
/// it, the refusal otherwise. No answer within the caller's time is a timeout.
pub fn publish_outcome(tx: &FinalTx, response: Option<RelayResponse>) -> (r: Result<
    Hash256,
    NetworkError,
>)
    ensures
        r == publish_spec(tx.txid, response),
{
    match response {
        None => Err(NetworkError::BackendTimeout),
        Some(RelayResponse::Accepted) => Ok(tx.txid),
        Some(RelayResponse::MempoolConflict) => Err(
            NetworkError::BroadcastRejected(RelayRefusal::MempoolConflict),
        ),
        Some(RelayResponse::FeeTooLow) => Err(
            NetworkError::BroadcastRejected(RelayRefusal::FeeTooLow),
        ),
        Some(RelayResponse::Refused) => Err(NetworkError::BroadcastRejected(RelayRefusal::Other)),
    }
}

} // verus!
