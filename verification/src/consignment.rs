//! Consignments: the portable proof of a transfer, made of the state
//! transition, the transaction that anchors it, and a commitment to both.

use vstd::prelude::*;
use crate::digest::{digest_id, sha256_id};
use crate::ids::{be_bytes, hash_bytes, outpoint_bytes, push_be, Hash256, OutPoint};
use crate::seal::Seal;

verus! {

/// An allocation that a transition consumes: the output that held it, and how much it held.
#[derive(Clone, Copy, Debug, PartialEq, Eq, Structural)]
pub struct Spend {
    pub outpoint: OutPoint,
    pub amount: u64,
}

/// Where a transition puts an amount.
#[derive(Clone, Copy, Debug, PartialEq, Eq, Structural)]
pub enum SealTarget {
    /// A blinded seal that the receiver handed out.
    Blinded(Seal),
    /// An output of the anchoring transaction, by its index; it returns to the sender.
    Output(u32),
}

/// An amount that a transition creates, and where.
#[derive(Clone, Copy, Debug, PartialEq, Eq, Structural)]
pub struct Assignment {
    pub target: SealTarget,
    pub amount: u64,
}

/// A transfer proof. `id` commits to all the other fields.
#[derive(Clone, Debug, PartialEq, Eq)]
pub struct Consignment {
    pub id: Hash256,
    pub contract: Hash256,
    pub anchor: Hash256,
    pub inputs: Vec<Spend>,
    pub outputs: Vec<Assignment>,
}

/// What a consignment holds, as mathematical values.
pub struct ConsignmentData {
    pub id: Hash256,
    pub contract: Hash256,
    pub anchor: Hash256,
    pub inputs: Seq<Spend>,
    pub outputs: Seq<Assignment>,
}

impl View for Consignment {
    type V = ConsignmentData;

    open spec fn view(&self) -> ConsignmentData {
        ConsignmentData {
            id: self.id,
            contract: self.contract,
            anchor: self.anchor,
            inputs: self.inputs@,
            outputs: self.outputs@,
        }
    }
}

impl ConsignmentData {
    /// Whether the id is the commitment to the rest.
    pub open spec fn committed(self) -> bool {
        self.id == commitment_of(self.contract, self.anchor, self.inputs, self.outputs)
    }

    /// Whether the id is the commitment to the rest, and the transition balances.
    pub open spec fn sound(self) -> bool {
        self.committed() && balanced(self.inputs, self.outputs)
    }
}

/// A transition whose inputs and outputs do not add up to the same amount.
#[derive(Clone, Copy, Debug, PartialEq, Eq, Structural)]
pub struct InvalidTransition {
    pub consumed: u128,
    pub assigned: u128,
}

/// The total that the spends consume.
pub open spec fn spent_total(inputs: Seq<Spend>) -> nat
    decreases inputs.len(),
{
    if inputs.len() == 0 {
        0
    } else {
        spent_total(inputs.drop_last()) + inputs.last().amount as nat
    }
}

/// The total that the assignments create.
pub open spec fn assigned_total(outputs: Seq<Assignment>) -> nat
    decreases outputs.len(),
{
    if outputs.len() == 0 {
        0
    } else {
        assigned_total(outputs.drop_last()) + outputs.last().amount as nat
    }
}

/// The total that goes to blinded seals: what leaves the sender.
pub open spec fn blinded_total(outputs: Seq<Assignment>) -> nat
    decreases outputs.len(),
{
    if outputs.len() == 0 {
        0
    } else {
        blinded_total(outputs.drop_last()) + if outputs.last().target is Blinded {
            outputs.last().amount as nat
        } else {
            0
        }
    }
}

/// The total that returns to the sender on outputs of the anchoring transaction.
pub open spec fn returned_total(outputs: Seq<Assignment>) -> nat
    decreases outputs.len(),
{
    if outputs.len() == 0 {
        0
    } else {
        returned_total(outputs.drop_last()) + if outputs.last().target is Output {
            outputs.last().amount as nat
        } else {
            0
        }
    }
}

/// A transition balances when it creates exactly what it consumes.
pub open spec fn balanced(inputs: Seq<Spend>, outputs: Seq<Assignment>) -> bool {
    spent_total(inputs) == assigned_total(outputs)
}

/// The bytes of one spend.
pub open spec fn spend_bytes(s: Spend) -> Seq<u8> {
    outpoint_bytes(s.outpoint) + be_bytes(s.amount as nat, 8)
}

/// The bytes of one assignment: the target, then the amount.
pub open spec fn assignment_bytes(a: Assignment) -> Seq<u8> {
    target_bytes(a.target) + be_bytes(a.amount as nat, 8)
}

/// The bytes of a target: a tag for its kind, then the seal or the index.
pub open spec fn target_bytes(t: SealTarget) -> Seq<u8> {
    match t {
        SealTarget::Blinded(seal) => seq![0u8] + hash_bytes(seal.commitment),
        SealTarget::Output(vout) => seq![1u8] + be_bytes(vout as nat, 4),
    }
}

/// The bytes of a list of spends, one after the other.
pub open spec fn spends_bytes(inputs: Seq<Spend>) -> Seq<u8>
    decreases inputs.len(),
{
    if inputs.len() == 0 {
        Seq::<u8>::empty()
    } else {
        spends_bytes(inputs.drop_last()) + spend_bytes(inputs.last())
    }
}

/// The bytes of a list of assignments, one after the other.
pub open spec fn assignments_bytes(outputs: Seq<Assignment>) -> Seq<u8>
    decreases outputs.len(),
{
    if outputs.len() == 0 {
        Seq::<u8>::empty()
    } else {
        assignments_bytes(outputs.drop_last()) + assignment_bytes(outputs.last())
    }
}

/// The bytes that a consignment's id commits to: the contract, the anchor, and
/// both lists, each with its length in front.
pub open spec fn consignment_bytes(
    contract: Hash256,
    anchor: Hash256,
    inputs: Seq<Spend>,
    outputs: Seq<Assignment>,
) -> Seq<u8> {
    hash_bytes(contract) + hash_bytes(anchor) + be_bytes(inputs.len(), 8) + spends_bytes(inputs)
        + be_bytes(outputs.len(), 8) + assignments_bytes(outputs)
}

/// The id that commits to a consignment's content.
pub open spec fn commitment_of(
    contract: Hash256,
    anchor: Hash256,
    inputs: Seq<Spend>,
    outputs: Seq<Assignment>,
) -> Hash256 {
    sha256_id(consignment_bytes(contract, anchor, inputs, outputs))
}

/// The sum of at most `n` 64-bit amounts fits in 128 bits.
pub proof fn lemma_sum_fits(n: nat, total: nat)
    requires
        n <= usize::MAX,
        total <= n * u64::MAX,
    ensures
        total + u64::MAX <= u128::MAX,
{
    assert(n * u64::MAX <= 0xffff_ffff_ffff_ffff * 0xffff_ffff_ffff_ffff) by (nonlinear_arith)
        requires
            n <= 0xffff_ffff_ffff_ffff,
    ;
}

/// The total of the spends is bounded by their number.
pub proof fn lemma_spent_total_bound(inputs: Seq<Spend>)
    ensures
        spent_total(inputs) <= inputs.len() * u64::MAX,
    decreases inputs.len(),
{
    if inputs.len() > 0 {
        lemma_spent_total_bound(inputs.drop_last());
        assert((inputs.len() - 1) * u64::MAX + u64::MAX == inputs.len() * u64::MAX)
            by (nonlinear_arith);
    }
}

/// The total of the assignments is bounded by their number.
pub proof fn lemma_assigned_total_bound(outputs: Seq<Assignment>)
    ensures
        assigned_total(outputs) <= outputs.len() * u64::MAX,
    decreases outputs.len(),
{
    if outputs.len() > 0 {
        lemma_assigned_total_bound(outputs.drop_last());
        assert((outputs.len() - 1) * u64::MAX + u64::MAX == outputs.len() * u64::MAX)
            by (nonlinear_arith);
    }
}

/// What goes to blinded seals and what returns make up all that is assigned.
pub proof fn lemma_assigned_split(outputs: Seq<Assignment>)
    ensures
        assigned_total(outputs) == blinded_total(outputs) + returned_total(outputs),
    decreases outputs.len(),
{
    if outputs.len() > 0 {
        lemma_assigned_split(outputs.drop_last());
    }
}

/// Adds up what the spends consume.
pub fn total_spent(inputs: &Vec<Spend>) -> (t: u128)
    ensures
        t == spent_total(inputs@),
{
    let mut t: u128 = 0;
    let mut i: usize = 0;
    while i < inputs.len()
        invariant
            i <= inputs.len(),
            t == spent_total(inputs@.subrange(0, i as int)),
        decreases inputs.len() - i,
    {
        proof {
            lemma_spent_total_bound(inputs@.subrange(0, i as int));
            lemma_sum_fits(i as nat, t as nat);
            assert(inputs@.subrange(0, i as int + 1).drop_last() =~= inputs@.subrange(0, i as int));
        }
        t = t + inputs[i].amount as u128;
        i += 1;
    }
    assert(inputs@.subrange(0, i as int) =~= inputs@);
    t
}

/// Adds up what the assignments create.
pub fn total_assigned(outputs: &Vec<Assignment>) -> (t: u128)
    ensures
        t == assigned_total(outputs@),
{
    let mut t: u128 = 0;
    let mut i: usize = 0;
    while i < outputs.len()
        invariant
            i <= outputs.len(),
            t == assigned_total(outputs@.subrange(0, i as int)),
        decreases outputs.len() - i,
    {
        proof {
            lemma_assigned_total_bound(outputs@.subrange(0, i as int));
            lemma_sum_fits(i as nat, t as nat);
            assert(outputs@.subrange(0, i as int + 1).drop_last() =~= outputs@.subrange(
                0,
                i as int,
            ));
        }
        t = t + outputs[i].amount as u128;
        i += 1;
    }
    assert(outputs@.subrange(0, i as int) =~= outputs@);
    t
}

/// The total of the assignments is at least what goes to blinded seals.
pub proof fn lemma_blinded_within_assigned(outputs: Seq<Assignment>)
    ensures
        blinded_total(outputs) <= assigned_total(outputs),
    decreases outputs.len(),
{
    if outputs.len() > 0 {
        lemma_blinded_within_assigned(outputs.drop_last());
    }
}

/// Adds up what goes to blinded seals.
pub fn total_blinded(outputs: &Vec<Assignment>) -> (t: u128)
    ensures
        t == blinded_total(outputs@),
{
    let mut t: u128 = 0;
    let mut i: usize = 0;
    while i < outputs.len()
        invariant
            i <= outputs.len(),
            t == blinded_total(outputs@.subrange(0, i as int)),
        decreases outputs.len() - i,
    {
        proof {
            lemma_assigned_total_bound(outputs@.subrange(0, i as int));
            lemma_blinded_within_assigned(outputs@.subrange(0, i as int));
            lemma_sum_fits(i as nat, t as nat);
            assert(outputs@.subrange(0, i as int + 1).drop_last() =~= outputs@.subrange(
                0,
                i as int,
            ));
        }
        match outputs[i].target {
            SealTarget::Blinded(_) => {
                t = t + outputs[i].amount as u128;
            },
            SealTarget::Output(_) => {},
        }
        i += 1;
    }
    assert(outputs@.subrange(0, i as int) =~= outputs@);
    t
}

fn write_spends(buf: &mut Vec<u8>, inputs: &Vec<Spend>)
    ensures
        final(buf)@ == old(buf)@ + spends_bytes(inputs@),
{
    let mut i: usize = 0;
    assert(buf@ =~= old(buf)@ + spends_bytes(inputs@.subrange(0, 0)));
    while i < inputs.len()
        invariant
            i <= inputs.len(),
            buf@ == old(buf)@ + spends_bytes(inputs@.subrange(0, i as int)),
        decreases inputs.len() - i,
    {
        let ghost before = buf@;
        inputs[i].outpoint.write_to(buf);
        push_be(buf, inputs[i].amount, 8);
        proof {
            let next = inputs@.subrange(0, i as int + 1);
            assert(next.drop_last() =~= inputs@.subrange(0, i as int));
            assert(next.last() == inputs@[i as int]);
            assert(buf@ =~= before + spend_bytes(inputs@[i as int]));
            assert(buf@ =~= old(buf)@ + spends_bytes(next));
        }
        i += 1;
    }
    assert(inputs@.subrange(0, i as int) =~= inputs@);
}

fn write_assignments(buf: &mut Vec<u8>, outputs: &Vec<Assignment>)
    ensures
        final(buf)@ == old(buf)@ + assignments_bytes(outputs@),
{
    let mut i: usize = 0;
    assert(buf@ =~= old(buf)@ + assignments_bytes(outputs@.subrange(0, 0)));
    while i < outputs.len()
        invariant
            i <= outputs.len(),
            buf@ == old(buf)@ + assignments_bytes(outputs@.subrange(0, i as int)),
        decreases outputs.len() - i,
    {
        let ghost before = buf@;
        match outputs[i].target {
            SealTarget::Blinded(seal) => {
                buf.push(0u8);
                seal.commitment.write_to(buf);
            },
            SealTarget::Output(vout) => {
                buf.push(1u8);
                push_be(buf, vout as u64, 4);
            },
        }
        push_be(buf, outputs[i].amount, 8);
        proof {
            let next = outputs@.subrange(0, i as int + 1);
            assert(next.drop_last() =~= outputs@.subrange(0, i as int));
            assert(next.last() == outputs@[i as int]);
            assert(buf@ =~= before + assignment_bytes(outputs@[i as int]));
            assert(buf@ =~= old(buf)@ + assignments_bytes(next));
        }
        i += 1;
    }
    assert(outputs@.subrange(0, i as int) =~= outputs@);
}

/// Computes the id that commits to a consignment's content.
pub fn commitment(
    contract: Hash256,
    anchor: Hash256,
    inputs: &Vec<Spend>,
    outputs: &Vec<Assignment>,
) -> (id: Hash256)
    ensures
        id == commitment_of(contract, anchor, inputs@, outputs@),
{
    let mut buf: Vec<u8> = Vec::new();
    contract.write_to(&mut buf);
    anchor.write_to(&mut buf);
    push_be(&mut buf, inputs.len() as u64, 8);
    write_spends(&mut buf, inputs);
    push_be(&mut buf, outputs.len() as u64, 8);
    write_assignments(&mut buf, outputs);
    assert(buf@ =~= consignment_bytes(contract, anchor, inputs@, outputs@));
    digest_id(&buf)
}

impl Consignment {
    /// Packages a transition with its anchor.
    ///
    /// Fails if and only if the transition does not balance; the error gives both totals.
    pub fn build(
        contract: Hash256,
        anchor: Hash256,
        inputs: Vec<Spend>,
        outputs: Vec<Assignment>,
    ) -> (r: Result<Consignment, InvalidTransition>)
        ensures
            match r {
                Ok(c) => balanced(inputs@, outputs@) && c@ == (ConsignmentData {
                    id: commitment_of(contract, anchor, inputs@, outputs@),
                    contract,
                    anchor,
                    inputs: inputs@,
                    outputs: outputs@,
                }),
                Err(e) => !balanced(inputs@, outputs@) && e == (InvalidTransition {
                    consumed: spent_total(inputs@) as u128,
                    assigned: assigned_total(outputs@) as u128,
                }),
            },
    {
        let consumed = total_spent(&inputs);
        let assigned = total_assigned(&outputs);
        if consumed != assigned {
            return Err(InvalidTransition { consumed, assigned });
        }
        let id = commitment(contract, anchor, &inputs, &outputs);
        Ok(Consignment { id, contract, anchor, inputs, outputs })
    }

    /// Whether the id is the commitment to the rest.
    pub fn commitment_holds(&self) -> (r: bool)
        ensures
            r == self@.committed(),
    {
        let id = commitment(self.contract, self.anchor, &self.inputs, &self.outputs);
        id == self.id
    }

    /// Whether the transition balances.
    pub fn is_balanced(&self) -> (r: bool)
        ensures
            r == balanced(self.inputs@, self.outputs@),
    {
        total_spent(&self.inputs) == total_assigned(&self.outputs)
    }
}

} // verus!
