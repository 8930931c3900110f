//! Planned programs: what the sampler executes for every shot.
//!
//! A program is a list of instructions over an active state of a few qubits,
//! dormant qubits, symbols, measurement records and detectors. Floating-point
//! operands are carried as the bits of a double.
use vstd::prelude::*;
use crate::symbolic::{SymbolicBool, SymbolicBoolEvaluationPlan, SymbolicCategoricalDistribution};

verus! {

/// How a Pauli acts on the active basis states.
#[derive(Clone, Copy, Debug, Default, PartialEq, Eq, Structural)]
pub struct PauliAction {
    pub nqubits: usize,
    pub xmask: u64,
    pub zmask: u64,
}

/// A rotation about a Pauli of the active state.
#[derive(Clone, Copy, Debug, Default, PartialEq, Eq, Structural)]
pub struct RotationKernel {
    pub action: PauliAction,
    /// The Pauli has no `X` part.
    pub is_diagonal: bool,
    /// Every pair of basis states is mixed with one imaginary coefficient.
    pub uniform_imag_pairs: bool,
    /// The bit that tells the two states of a pair apart.
    pub pair_bit: u32,
    /// The bits of the rotation angle.
    pub kernel_angle: u64,
}

/// A measurement of a Pauli of the active state.
#[derive(Clone, Copy, Debug, Default, PartialEq, Eq, Structural)]
pub struct MeasurementKernel {
    pub action: PauliAction,
    pub is_diagonal: bool,
}

#[derive(Clone, Debug)]
pub struct ApplyPrecomputedActivePauliRotation {
    pub sign_plan: SymbolicBoolEvaluationPlan,
    pub rotation_kernel: RotationKernel,
}

#[derive(Clone, Debug)]
pub struct PromoteDormantRotation {
    pub sign_plan: SymbolicBoolEvaluationPlan,
    /// The bits of the rotation angle.
    pub kernel_angle: u64,
}

#[derive(Clone, Debug)]
pub struct RecordMeasurement {
    pub outcome: SymbolicBool,
    pub outcome_plan: SymbolicBoolEvaluationPlan,
    pub record: Option<i32>,
    pub record_condition: Option<i32>,
    pub exp_val: Option<i32>,
}

#[derive(Clone, Debug)]
pub struct RecordDetector {
    pub detector: i32,
    pub records: Vec<i32>,
    pub outcome: SymbolicBool,
    pub outcome_plan: SymbolicBoolEvaluationPlan,
    pub postselect: bool,
}

#[derive(Clone, Debug)]
pub struct MeasurePrecomputedActivePauli {
    pub kernel: MeasurementKernel,
    pub branch: i32,
    pub outcome: SymbolicBool,
    pub outcome_plan: SymbolicBoolEvaluationPlan,
    pub record: Option<i32>,
    pub record_condition: Option<i32>,
    pub exp_val: Option<i32>,
}

#[derive(Clone, Debug)]
pub struct IntroduceDormantMeasurementBranch {
    pub branch: i32,
    pub outcome: SymbolicBool,
    pub outcome_plan: SymbolicBoolEvaluationPlan,
    pub record: Option<i32>,
    pub record_condition: Option<i32>,
    pub exp_val: Option<i32>,
}

/// One instruction of a planned program.
#[derive(Clone, Debug)]
pub enum FactoredInstruction {
    ApplyPrecomputedActivePauliRotation(ApplyPrecomputedActivePauliRotation),
    PromoteDormantRotation(PromoteDormantRotation),
    RecordMeasurement(RecordMeasurement),
    RecordDetector(RecordDetector),
    MeasurePrecomputedActivePauli(MeasurePrecomputedActivePauli),
    IntroduceDormantMeasurementBranch(IntroduceDormantMeasurementBranch),
}

/// The plan evaluates the expression.
pub open spec fn plans(plan: SymbolicBoolEvaluationPlan, outcome: SymbolicBool) -> bool {
    &&& outcome.wf()
    &&& plan.wf()
    &&& plan.constant == outcome.constant
    &&& plan.conditions@ == outcome.conditions@
}

/// A named symbol is positive.
pub open spec fn positive_if_named(condition: Option<i32>) -> bool {
    match condition {
        Some(c) => c > 0,
        None => true,
    }
}

impl FactoredInstruction {
    /// The plans are in canonical form and agree with the expressions.
    pub open spec fn wf(&self) -> bool {
        match *self {
            FactoredInstruction::ApplyPrecomputedActivePauliRotation(inst) => inst.sign_plan.wf(),
            FactoredInstruction::PromoteDormantRotation(inst) => inst.sign_plan.wf(),
            FactoredInstruction::RecordMeasurement(inst) => plans(inst.outcome_plan, inst.outcome)
                && positive_if_named(inst.record_condition),
            FactoredInstruction::RecordDetector(inst) => plans(inst.outcome_plan, inst.outcome),
            FactoredInstruction::MeasurePrecomputedActivePauli(inst) => inst.branch > 0 && plans(
                inst.outcome_plan,
                inst.outcome,
            ) && positive_if_named(inst.record_condition),
            FactoredInstruction::IntroduceDormantMeasurementBranch(inst) => inst.branch > 0
                && plans(inst.outcome_plan, inst.outcome) && positive_if_named(
                inst.record_condition,
            ),
        }
    }

    /// The expression of the measured bit.
    pub open spec fn outcome_of(&self) -> Option<SymbolicBool> {
        match *self {
            FactoredInstruction::RecordMeasurement(inst) => Some(inst.outcome),
            FactoredInstruction::RecordDetector(inst) => Some(inst.outcome),
            FactoredInstruction::MeasurePrecomputedActivePauli(inst) => Some(inst.outcome),
            FactoredInstruction::IntroduceDormantMeasurementBranch(inst) => Some(inst.outcome),
            _ => None,
        }
    }

    /// The expectation slot of a probe.
    pub open spec fn exp_val_of(&self) -> Option<i32> {
        match *self {
            FactoredInstruction::RecordMeasurement(inst) => inst.exp_val,
            FactoredInstruction::MeasurePrecomputedActivePauli(inst) => inst.exp_val,
            FactoredInstruction::IntroduceDormantMeasurementBranch(inst) => inst.exp_val,
            _ => None,
        }
    }

    /// The symbol the instruction draws, where it draws one.
    pub open spec fn drawn(&self) -> Option<i32> {
        match *self {
            FactoredInstruction::MeasurePrecomputedActivePauli(inst) => if inst.exp_val is None {
                Some(inst.branch)
            } else {
                None
            },
            FactoredInstruction::IntroduceDormantMeasurementBranch(inst) => if inst.exp_val is None {
                Some(inst.branch)
            } else {
                None
            },
            _ => None,
        }
    }

    /// The symbol that takes the value of the record, where one is named.
    pub open spec fn derives(&self) -> Option<i32> {
        if self.exp_val_of() is Some {
            None
        } else {
            match *self {
                FactoredInstruction::RecordMeasurement(inst) => inst.record_condition,
                FactoredInstruction::MeasurePrecomputedActivePauli(inst) => inst.record_condition,
                FactoredInstruction::IntroduceDormantMeasurementBranch(inst) =>
                    inst.record_condition,
                _ => None,
            }
        }
    }

    /// The one-based record the instruction writes, where it writes one.
    pub open spec fn writes(&self) -> Option<i32> {
        if self.exp_val_of() is Some {
            None
        } else {
            match *self {
                FactoredInstruction::RecordMeasurement(inst) => inst.record,
                FactoredInstruction::MeasurePrecomputedActivePauli(inst) => inst.record,
                FactoredInstruction::IntroduceDormantMeasurementBranch(inst) => inst.record,
                _ => None,
            }
        }
    }

    /// The expression of the measured bit.
    pub fn outcome(&self) -> (r: Option<&SymbolicBool>)
        ensures
            match r {
                Some(e) => self.outcome_of() == Some(*e),
                None => self.outcome_of() is None,
            },
    {
        match self {
            FactoredInstruction::RecordMeasurement(inst) => Some(&inst.outcome),
            FactoredInstruction::RecordDetector(inst) => Some(&inst.outcome),
            FactoredInstruction::MeasurePrecomputedActivePauli(inst) => Some(&inst.outcome),
            FactoredInstruction::IntroduceDormantMeasurementBranch(inst) => Some(&inst.outcome),
            _ => None,
        }
    }

    /// The expectation slot of a probe.
    pub fn exp_val(&self) -> (r: Option<i32>)
        ensures
            r == self.exp_val_of(),
    {
        match self {
            FactoredInstruction::RecordMeasurement(inst) => inst.exp_val,
            FactoredInstruction::MeasurePrecomputedActivePauli(inst) => inst.exp_val,
            FactoredInstruction::IntroduceDormantMeasurementBranch(inst) => inst.exp_val,
            _ => None,
        }
    }

    /// The symbol the instruction draws. An expectation probe rides the
    /// measurement opcodes but samples nothing.
    pub fn branch(&self) -> (r: Option<i32>)
        ensures
            r == self.drawn(),
    {
        match self {
            FactoredInstruction::MeasurePrecomputedActivePauli(inst) => if inst.exp_val.is_none() {
                Some(inst.branch)
            } else {
                None
            },
            FactoredInstruction::IntroduceDormantMeasurementBranch(inst) => if inst.exp_val.is_none() {
                Some(inst.branch)
            } else {
                None
            },
            _ => None,
        }
    }

    /// The symbol that takes the value of the record.
    pub fn record_condition(&self) -> (r: Option<i32>)
        ensures
            r == self.derives(),
    {
        if self.exp_val().is_some() {
            return None;
        }
        match self {
            FactoredInstruction::RecordMeasurement(inst) => inst.record_condition,
            FactoredInstruction::MeasurePrecomputedActivePauli(inst) => inst.record_condition,
            FactoredInstruction::IntroduceDormantMeasurementBranch(inst) => inst.record_condition,
            _ => None,
        }
    }

    /// The one-based record the instruction writes.
    pub fn record(&self) -> (r: Option<i32>)
        ensures
            r == self.writes(),
    {
        if self.exp_val().is_some() {
            return None;
        }
        match self {
            FactoredInstruction::RecordMeasurement(inst) => inst.record,
            FactoredInstruction::MeasurePrecomputedActivePauli(inst) => inst.record,
            FactoredInstruction::IntroduceDormantMeasurementBranch(inst) => inst.record,
            _ => None,
        }
    }
}

/// What one instruction does to the components of the active state.
#[derive(Clone, Copy, Debug, PartialEq, Eq, Structural)]
pub enum ActiveComponentStepKind {
    /// The components are not touched.
    Unaffected,
    IgnoredGlobalPhase,
    Rotation,
    Promotion,
    Measurement,
}

/// The component step of one instruction; `payload` indexes the list of its kind.
#[derive(Clone, Copy, Debug, PartialEq, Eq, Structural)]
pub struct ActiveComponentStep {
    pub kind: ActiveComponentStepKind,
    pub payload: usize,
}

#[derive(Clone, Copy, Debug, PartialEq, Eq, Structural)]
pub struct ActiveComponentRotation {
    pub merge_offset: usize,
    pub merge_count: usize,
    pub component: usize,
    pub kernel: RotationKernel,
}

#[derive(Clone, Copy, Debug, PartialEq, Eq, Structural)]
pub struct ActiveComponentPromotion {
    pub component: usize,
}

#[derive(Clone, Copy, Debug, PartialEq, Eq, Structural)]
pub struct ActiveComponentMeasurement {
    pub merge_offset: usize,
    pub merge_count: usize,
    pub component: usize,
    pub kernel: MeasurementKernel,
    /// The measurement removes the component's last coordinate.
    pub deactivate_after: bool,
}

/// How the active state splits into tensor factors.
#[derive(Clone, Debug)]
pub struct ActiveComponentPlan {
    pub component_count: usize,
    pub component_max_k: Vec<usize>,
    pub initial_components: usize,
    pub instruction_steps: Vec<ActiveComponentStep>,
    pub rotations: Vec<ActiveComponentRotation>,
    pub promotions: Vec<ActiveComponentPromotion>,
    pub measurements: Vec<ActiveComponentMeasurement>,
    pub merge_components: Vec<usize>,
}

/// Condition sets that share one rarely firing categorical distribution.
#[derive(Clone, Debug)]
pub struct RareCategoricalSampleGroup {
    pub conditions: Vec<Vec<i32>>,
    pub assignments: Vec<Vec<u64>>,
    pub event_rows: Vec<usize>,
    /// The bits of the conditional row probabilities.
    pub event_probabilities: Vec<u64>,
    /// The bits of the probability that the distribution fires.
    pub event_probability: u64,
}

/// Conditions that share one low Bernoulli probability.
#[derive(Clone, Debug)]
pub struct BernoulliSampleGroup {
    pub conditions: Vec<i32>,
    /// The bits of the probability.
    pub probability: u64,
}

/// A planned program.
#[derive(Clone, Debug)]
pub struct FactoredInstructionProgram {
    pub n: usize,
    pub initial_k: usize,
    pub max_k: usize,
    pub nsymbols: usize,
    pub nrecords: usize,
    pub ndetectors: usize,
    pub nexpvals: usize,
    pub instructions: Vec<FactoredInstruction>,
    pub use_active_components: bool,
    pub active_component_plan: Option<ActiveComponentPlan>,
    pub sampled_categorical_distributions: Vec<SymbolicCategoricalDistribution>,
    pub sampled_rare_categorical_groups: Vec<RareCategoricalSampleGroup>,
    pub sampled_bernoulli_conditions: Vec<i32>,
    /// The bits of the probabilities, one per condition.
    pub sampled_bernoulli_probabilities: Vec<u64>,
    pub sampled_low_probability_bernoulli_groups: Vec<BernoulliSampleGroup>,
}

impl Default for FactoredInstructionProgram {
    /// A program that does nothing.
    fn default() -> (r: Self)
        ensures
            r.wf(),
            r.n == 0,
            r.initial_k == 0,
            r.max_k == 0,
            r.nsymbols == 0,
            r.nrecords == 0,
            r.ndetectors == 0,
            r.nexpvals == 0,
            r.instructions@.len() == 0,
            !r.use_active_components,
            r.active_component_plan is None,
            r.sampled_categorical_distributions@.len() == 0,
            r.sampled_rare_categorical_groups@.len() == 0,
            r.sampled_bernoulli_conditions@.len() == 0,
            r.sampled_bernoulli_probabilities@.len() == 0,
            r.sampled_low_probability_bernoulli_groups@.len() == 0,
    {
        FactoredInstructionProgram {
            n: 0,
            initial_k: 0,
            max_k: 0,
            nsymbols: 0,
            nrecords: 0,
            ndetectors: 0,
            nexpvals: 0,
            instructions: Vec::new(),
            use_active_components: false,
            active_component_plan: None,
            sampled_categorical_distributions: Vec::new(),
            sampled_rare_categorical_groups: Vec::new(),
            sampled_bernoulli_conditions: Vec::new(),
            sampled_bernoulli_probabilities: Vec::new(),
            sampled_low_probability_bernoulli_groups: Vec::new(),
        }
    }
}

impl FactoredInstructionProgram {
    /// Every instruction is in form, and instructions can be numbered by `i32`.
    pub open spec fn wf(&self) -> bool {
        &&& self.instructions@.len() < i32::MAX
        &&& forall|i: int|
            0 <= i < self.instructions@.len() ==> (#[trigger] self.instructions@[i]).wf()
    }

    /// Whether any detector discards shots.
    pub open spec fn postselects(&self) -> bool {
        exists|i: int|
            0 <= i < self.instructions@.len() && discards(#[trigger] self.instructions@[i])
    }
}

/// Whether the instruction is a detector that discards shots.
pub open spec fn discards(ins: FactoredInstruction) -> bool {
    match ins {
        FactoredInstruction::RecordDetector(detector) => detector.postselect,
        _ => false,
    }
}

/// Whether any detector of the program discards shots.
pub fn has_postselection(program: &FactoredInstructionProgram) -> (r: bool)
    ensures
        r == program.postselects(),
{
    let mut i: usize = 0;
    while i < program.instructions.len()
        invariant
            i <= program.instructions@.len(),
            forall|k: int| 0 <= k < i ==> !discards(#[trigger] program.instructions@[k]),
        decreases program.instructions@.len() - i,
    {
        match &program.instructions[i] {
            FactoredInstruction::RecordDetector(detector) => {
                if detector.postselect {
                    assert(discards(program.instructions@[i as int]));
                    return true;
                }
            },
            _ => {},
        }
        i += 1;
    }
    false
}

} // verus!
