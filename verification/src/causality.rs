//! A symbol is assigned before it is used.
use vstd::prelude::*;
use crate::errors::{push_signed_decimal, signed_decimal, Result, TicitError};
use crate::symbolic::SymbolicBool;

verus! {

/// An operation that waits to be planned.
#[derive(Clone, Debug)]
pub enum PendingOperation {
    /// A record that follows from known symbols.
    ClassicalRecord { outcome: SymbolicBool, record_condition: Option<i32> },
    /// A rotation about a signed Pauli.
    PauliRotation { sign: SymbolicBool },
    /// A measurement of a signed Pauli.
    PauliMeasurement { sign: SymbolicBool, record_condition: Option<i32> },
}

/// The operations that wait, in order.
#[derive(Clone, Debug)]
pub struct PendingFactoredState {
    pub pending_operations: Vec<PendingOperation>,
}

impl PendingOperation {
    /// The symbol that the operation assigns.
    pub open spec fn produces(&self) -> Option<i32> {
        match *self {
            PendingOperation::ClassicalRecord { record_condition, .. } => record_condition,
            PendingOperation::PauliRotation { .. } => None,
            PendingOperation::PauliMeasurement { record_condition, .. } => record_condition,
        }
    }

    /// The expression that the operation reads.
    pub open spec fn expression_of(&self) -> SymbolicBool {
        match *self {
            PendingOperation::ClassicalRecord { outcome, .. } => outcome,
            PendingOperation::PauliRotation { sign } => sign,
            PendingOperation::PauliMeasurement { sign, .. } => sign,
        }
    }

    /// The symbol that the operation assigns.
    pub fn record_condition(&self) -> (r: Option<i32>)
        ensures
            r == self.produces(),
    {
        match self {
            PendingOperation::ClassicalRecord { record_condition, .. } => *record_condition,
            PendingOperation::PauliRotation { .. } => None,
            PendingOperation::PauliMeasurement { record_condition, .. } => *record_condition,
        }
    }

    /// The expression that the operation reads.
    pub fn expression(&self) -> (r: &SymbolicBool)
        ensures
            *r == self.expression_of(),
    {
        match self {
            PendingOperation::ClassicalRecord { outcome, .. } => outcome,
            PendingOperation::PauliRotation { sign } => sign,
            PendingOperation::PauliMeasurement { sign, .. } => sign,
        }
    }
}

/// Operation `user` reads a symbol that operation `producer` assigns no earlier.
pub open spec fn reads_too_early(operations: Seq<PendingOperation>, user: int, q: int, producer: int) -> bool {
    &&& 0 <= user <= producer < operations.len()
    &&& 0 <= q < operations[user].expression_of().conditions@.len()
    &&& operations[producer].produces() == Some(operations[user].expression_of().conditions@[q])
}

/// No operation reads a symbol before the operation that assigns it.
pub open spec fn causal(operations: Seq<PendingOperation>) -> bool {
    forall|user: int, q: int, producer: int| !#[trigger]
        reads_too_early(operations, user, q, producer)
}

/// The message about a symbol that is used too early.
pub open spec fn too_early_text(context: Seq<char>, condition: i32) -> Seq<char> {
    context + " uses measurement condition "@ + signed_decimal(condition as int)
        + " before it is assigned"@
}

fn too_early(context: &str, condition: i32) -> (r: TicitError)
    ensures
        r@ == too_early_text(context@, condition),
{
    let mut text: String = context.to_owned();
    text.append(" uses measurement condition ");
    push_signed_decimal(&mut text, condition as i64);
    text.append(" before it is assigned");
    TicitError::with_text(text)
}

/// Requires that no operation uses a record symbol before the operation that assigns
/// it: a symbol must be assigned before it is used.
pub fn require_pending_record_conditions_are_causal(
    state: &PendingFactoredState,
    context: &str,
) -> (r: Result<()>)
    ensures
        match r {
            Ok(_) => causal(state.pending_operations@),
            Err(e) => exists|user: int, q: int, producer: int| #[trigger]
                reads_too_early(state.pending_operations@, user, q, producer) && e@
                    == too_early_text(
                    context@,
                    state.pending_operations@[user].expression_of().conditions@[q],
                ),
        },
{
    let ghost operations = state.pending_operations@;
    let n: usize = state.pending_operations.len();
    let mut user: usize = 0;
    while user < n
        invariant
            user <= n,
            operations == state.pending_operations@,
            n == operations.len(),
            forall|u: int, q: int, p: int|
                0 <= u < user ==> !#[trigger] reads_too_early(operations, u, q, p),
        decreases n - user,
    {
        let conditions: &Vec<i32> = &state.pending_operations[user].expression().conditions;
        let mut q: usize = 0;
        while q < conditions.len()
            invariant
                user < n,
                operations == state.pending_operations@,
                n == operations.len(),
                conditions@ == operations[user as int].expression_of().conditions@,
                q <= conditions@.len(),
                forall|r: int, p: int|
                    0 <= r < q ==> !#[trigger] reads_too_early(operations, user as int, r, p),
            decreases conditions@.len() - q,
        {
            let condition: i32 = conditions[q];
            let mut producer: usize = user;
            while producer < n
                invariant
                    user <= producer <= n,
                    user < n,
                    operations == state.pending_operations@,
                    n == operations.len(),
                    conditions@ == operations[user as int].expression_of().conditions@,
                    q < conditions@.len(),
                    condition == conditions@[q as int],
                    forall|p: int|
                        p < producer ==> !#[trigger] reads_too_early(
                            operations,
                            user as int,
                            q as int,
                            p,
                        ),
                decreases n - producer,
            {
                match state.pending_operations[producer].record_condition() {
                    Some(produced) => {
                        if produced == condition {
                            assert(reads_too_early(
                                operations,
                                user as int,
                                q as int,
                                producer as int,
                            ));
                            return Err(too_early(context, condition));
                        }
                    },
                    None => {},
                }
                producer += 1;
            }
            q += 1;
        }
        user += 1;
    }
    Ok(())
}

/// In a causal list, what assigns a symbol comes before whatever reads it.
pub proof fn law_causal_reads_follow_their_writes(
    operations: Seq<PendingOperation>,
    user: int,
    producer: int,
    symbol: i32,
)
    requires
        causal(operations),
        0 <= user < operations.len(),
        0 <= producer < operations.len(),
        match operations[user] {
            PendingOperation::ClassicalRecord { outcome, .. } => outcome.conditions@.contains(symbol),
            PendingOperation::PauliRotation { sign } => sign.conditions@.contains(symbol),
            PendingOperation::PauliMeasurement { sign, .. } => sign.conditions@.contains(symbol),
        },
        match operations[producer] {
            PendingOperation::ClassicalRecord { record_condition, .. } => record_condition == Some(
                symbol,
            ),
            PendingOperation::PauliRotation { .. } => false,
            PendingOperation::PauliMeasurement { record_condition, .. } => record_condition == Some(
                symbol,
            ),
        },
    ensures
        producer < user,
{
    let conditions = operations[user].expression_of().conditions@;
    let q = conditions.index_of(symbol);
    assert(!reads_too_early(operations, user, q, producer));
}

/// A list in which everything that assigns a symbol comes before whatever reads it is
/// causal.
pub proof fn law_writes_before_reads_are_causal(operations: Seq<PendingOperation>)
    requires
        forall|user: int, producer: int, symbol: i32|
            0 <= user < operations.len() && 0 <= producer < operations.len() && (#[trigger]
            operations[user].expression_of().conditions@.contains(symbol)) && (
            #[trigger] operations[producer]).produces() == Some(symbol) ==> producer < user,
    ensures
        causal(operations),
{
    assert forall|user: int, q: int, producer: int| !#[trigger]
        reads_too_early(operations, user, q, producer) by {
        if reads_too_early(operations, user, q, producer) {
            let symbol = operations[user].expression_of().conditions@[q];
            assert(operations[user].expression_of().conditions@.contains(symbol));
            assert(operations[producer].produces() == Some(symbol));
        }
    }
}

} // verus!
