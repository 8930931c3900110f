//! What a batch means: the live shots one by one, each with its amplitudes, symbol
//! values, records, detectors and expectation values.
//!
//! A block is a mathematical value. The functions below say what every kind of
//! instruction makes of it; the executor is held to them.
use vstd::prelude::*;
use crate::bits::{row_bit, words_for_bits};
use crate::executor::{dimension, BatchFactoredExecutorState};
use crate::kernels::{expectation, one_of, promoted, random_of, rotated, ActiveKernels};
use crate::lanes::{measured_lanes, tensor, LaneLayout};
use crate::presampled_expression::PresampledExpressionPlan;
use crate::program::{
    ActiveComponentPlan, ActiveComponentStepKind, FactoredInstruction, FactoredInstructionProgram,
    MeasurementKernel, RecordDetector, RotationKernel,
};
use crate::symbolic::SymbolicBoolEvaluationPlan;
use crate::symbols::plan_refusal;

verus! {

/// One live shot.
#[verifier::ext_equal]
pub struct Shot<A> {
    /// The column of the presampled table that the shot reads.
    pub sample: int,
    /// The amplitudes of every part of the active state; none for a part that is
    /// switched off.
    pub lanes: Seq<Seq<A>>,
    /// The values of the assigned symbols.
    pub values: Map<i32, bool>,
    pub records: Seq<bool>,
    /// The stored detectors.
    pub detectors: Seq<bool>,
    /// Whether any detector fired.
    pub fired: bool,
    pub exps: Seq<u64>,
}

/// One part of the active state: all of it, or one tensor factor.
#[verifier::ext_equal]
pub struct Part {
    pub k: int,
    pub active: bool,
    /// How many amplitudes it has room for.
    pub stride: int,
}

/// A block of live shots.
#[verifier::ext_equal]
pub struct Block<A> {
    pub k: int,
    pub ndormant: int,
    pub nsymbols: int,
    pub nrecords: int,
    pub ndetectors: int,
    pub nexpvals: int,
    pub shot_major: bool,
    pub stores_detectors: bool,
    /// The active state is split into tensor factors.
    pub split: bool,
    pub parts: Seq<Part>,
    /// The symbols that have values.
    pub known: Set<i32>,
    pub rng: u64,
    pub shots: Seq<Shot<A>>,
}

/// What an instruction makes of a block: the next block, or the text of the error.
pub type Outcome<A> = core::result::Result<Block<A>, Seq<char>>;

impl<A: Copy> BatchFactoredExecutorState<A> {
    pub open spec fn part_count(&self) -> int {
        if self.active_components_enabled {
            self.active_components@.len() as int
        } else {
            1
        }
    }

    pub open spec fn part(&self, j: int) -> Part {
        if self.active_components_enabled {
            let c = self.active_components@[j];
            Part { k: c.k as int, active: c.active, stride: c.stride as int }
        } else {
            Part { k: self.k as int, active: true, stride: self.active_stride as int }
        }
    }

    pub open spec fn layout(&self, j: int) -> LaneLayout {
        LaneLayout {
            shot_major: self.dense_shot_major_active,
            stride: if self.active_components_enabled {
                self.active_components@[j].stride
            } else {
                self.active_stride
            },
            pitch: self.active_pitch,
        }
    }

    pub open spec fn store(&self, j: int) -> Seq<A> {
        if self.active_components_enabled {
            self.active_components@[j].amplitudes@
        } else {
            self.active@
        }
    }

    pub open spec fn parts(&self) -> Seq<Part> {
        Seq::new(self.part_count() as nat, |j: int| self.part(j))
    }

    /// The amplitudes of a part, for one shot.
    pub open spec fn lane(&self, s: int, j: int) -> Seq<A> {
        if self.part(j).active {
            self.layout(j).lane(self.store(j), s, dimension(self.part(j).k))
        } else {
            Seq::empty()
        }
    }

    /// What shot `s` holds, where it reads column `sample`.
    pub open spec fn shot(&self, s: int, sample: int) -> Shot<A> {
        Shot {
            sample,
            lanes: Seq::new(self.part_count() as nat, |j: int| self.lane(s, j)),
            values: Map::new(|c: i32| self.known().contains(c), |c: i32| self.value_bit(c, s)),
            records: Seq::new(self.nrecords as nat, |q: int| self.record_bit(q + 1, s)),
            detectors: if self.store_detector_records {
                Seq::new(self.ndetectors as nat, |q: int| self.detector_bit(q + 1, s))
            } else {
                Seq::empty()
            },
            fired: row_bit(self.detector_any_words@, s),
            exps: Seq::new(
                self.nexpvals as nat,
                |e: int| self.exp_values@[e * self.batches + s],
            ),
        }
    }

    /// The block that the state holds, where shot `s` reads column `first + s`.
    pub open spec fn block(&self, first: int) -> Block<A> {
        Block {
            k: self.k as int,
            ndormant: self.ndormant as int,
            nsymbols: self.nsymbols as int,
            nrecords: self.nrecords as int,
            ndetectors: self.ndetectors as int,
            nexpvals: self.nexpvals as int,
            shot_major: self.dense_shot_major_active,
            stores_detectors: self.store_detector_records,
            split: self.active_components_enabled,
            parts: self.parts(),
            known: self.known(),
            rng: self.rng_state,
            shots: Seq::new(self.active_shots as nat, |s: int| self.shot(s, first + s)),
        }
    }

    /// The state can execute instructions: every part has room for its amplitudes,
    /// and the widths of the parts make up the width of the active state.
    pub open spec fn ready(&self) -> bool {
        &&& self.wf()
        &&& self.active_components_enabled ==> widths(self.parts(), self.part_count()) == self.k
        &&& !self.active_components_enabled ==> dimension(self.k as int) <= self.active_stride
    }

    /// What instructions leave alone.
    pub open spec fn same_frame(&self, other: &Self) -> bool {
        &&& self.n == other.n
        &&& self.batches == other.batches
        &&& self.active_pitch == other.active_pitch
        &&& self.nsymbols == other.nsymbols
        &&& self.nexpvals == other.nexpvals
        &&& self.max_k == other.max_k
        &&& self.batch_words == other.batch_words
        &&& self.store_detector_records == other.store_detector_records
        &&& self.dense_shot_major_active == other.dense_shot_major_active
        &&& self.active_components_enabled == other.active_components_enabled
    }
}

/// The qubits of the first `n` parts that are switched on.
pub open spec fn widths(parts: Seq<Part>, n: int) -> int
    decreases n,
{
    if n <= 0 {
        0
    } else {
        widths(parts, n - 1) + if parts[n - 1].active {
            parts[n - 1].k
        } else {
            0
        }
    }
}

pub open spec fn width(part: Part) -> int {
    if part.active {
        part.k
    } else {
        0
    }
}

pub proof fn lemma_widths_ext(a: Seq<Part>, b: Seq<Part>, n: int)
    requires
        forall|j: int| 0 <= j < n ==> width(#[trigger] a[j]) == width(b[j]),
    ensures
        widths(a, n) == widths(b, n),
    decreases n,
{
    if n > 0 {
        lemma_widths_ext(a, b, n - 1);
        assert(width(a[n - 1]) == width(b[n - 1]));
    }
}

/// Changing one part changes the sum by its width.
pub proof fn lemma_widths_update(a: Seq<Part>, b: Seq<Part>, at: int, n: int)
    requires
        0 <= at < n,
        forall|j: int| 0 <= j < n && j != at ==> width(#[trigger] a[j]) == width(b[j]),
    ensures
        widths(b, n) == widths(a, n) - width(a[at]) + width(b[at]),
    decreases n,
{
    if n - 1 == at {
        lemma_widths_ext(a, b, n - 1);
    } else {
        lemma_widths_update(a, b, at, n - 1);
        assert(width(a[n - 1]) == width(b[n - 1]));
    }
}

/// No part is wider than all of them together.
pub proof fn lemma_widths_bound(parts: Seq<Part>, at: int, n: int)
    requires
        0 <= at < n,
        forall|j: int| 0 <= j < n ==> 0 <= (#[trigger] parts[j]).k,
    ensures
        width(parts[at]) <= widths(parts, n),
        0 <= widths(parts, n),
    decreases n,
{
    reveal_with_fuel(widths, 2);
    if n > 1 {
        if at == n - 1 {
            lemma_widths_bound(parts, 0, n - 1);
        } else {
            lemma_widths_bound(parts, at, n - 1);
        }
    }
    assert(0 <= parts[n - 1].k);
}

/// Two parts are not wider than all of them together.
pub proof fn lemma_widths_two(parts: Seq<Part>, i: int, j: int, n: int)
    requires
        0 <= i < j < n,
        forall|m: int| 0 <= m < n ==> 0 <= (#[trigger] parts[m]).k,
    ensures
        width(parts[i]) + width(parts[j]) <= widths(parts, n),
    decreases n,
{
    if j == n - 1 {
        lemma_widths_bound(parts, i, n - 1);
    } else {
        lemma_widths_two(parts, i, j, n - 1);
        assert(0 <= parts[n - 1].k);
    }
}

// ---------------------------------------------------------------------------
// Signs and outcomes
// ---------------------------------------------------------------------------
/// The values of a shot; symbols without one count as clear.
pub open spec fn shot_values<A>(shot: Shot<A>) -> spec_fn(i32) -> bool {
    |c: i32| shot.values.contains_key(c) && shot.values[c]
}

/// The sign or outcome of instruction `i` for one shot: what the presampled table
/// says, corrected by the residual of the shot's symbols.
pub open spec fn sign_at<A>(
    base: spec_fn(int, int) -> bool,
    plan: PresampledExpressionPlan,
    i: int,
    shot: Shot<A>,
) -> bool {
    let expression = plan.instruction_expressions@[i];
    base(expression.block_expression_index as int, shot.sample) != (
    expression.residual_plan.conditions@.len() > 0 && expression.residual_plan.value(
        shot_values(shot),
    ))
}

pub open spec fn signs<A>(
    base: spec_fn(int, int) -> bool,
    plan: PresampledExpressionPlan,
    i: int,
    b: Block<A>,
) -> Seq<bool> {
    Seq::new(b.shots.len(), |s: int| sign_at(base, plan, i, b.shots[s]))
}

/// Why the signs of instruction `i` cannot be had, if they cannot.
pub open spec fn sign_refusal<A>(
    plan: PresampledExpressionPlan,
    i: int,
    b: Block<A>,
) -> Option<Seq<char>> {
    if i >= plan.instruction_expressions@.len() {
        Some("batch presampled expression plan does not match program"@)
    } else {
        let expression = plan.instruction_expressions@[i];
        if expression.block_expression_index >= plan.block_expressions@.len() {
            Some("batch presampled expression references an out-of-range block expression"@)
        } else {
            plan_refusal(b.nsymbols, b.known, expression.residual_plan)
        }
    }
}

/// The XOR of the first `n` listed records of a shot.
pub open spec fn records_parity<A>(records: Seq<i32>, shot: Shot<A>, n: int) -> bool
    decreases n,
{
    if n <= 0 {
        false
    } else {
        records_parity(records, shot, n - 1) != shot.records[records[n - 1] - 1]
    }
}

/// The outcome of a detector for one shot.
pub open spec fn detector_at<A>(
    base: spec_fn(int, int) -> bool,
    plan: PresampledExpressionPlan,
    detector: RecordDetector,
    i: int,
    shot: Shot<A>,
) -> bool {
    if detector.records@.len() > 0 {
        records_parity(detector.records@, shot, detector.records@.len() as int)
    } else if detector.outcome.conditions@.len() == 0 {
        detector.outcome_plan.constant
    } else {
        sign_at(base, plan, i, shot)
    }
}

pub open spec fn detector_outcomes<A>(
    base: spec_fn(int, int) -> bool,
    plan: PresampledExpressionPlan,
    detector: RecordDetector,
    i: int,
    b: Block<A>,
) -> Seq<bool> {
    Seq::new(b.shots.len(), |s: int| detector_at(base, plan, detector, i, b.shots[s]))
}

/// Every listed record exists.
pub open spec fn records_exist(records: Seq<i32>, nrecords: int) -> bool {
    forall|k: int| 0 <= k < records.len() ==> 0 < #[trigger] records[k] <= nrecords
}

/// Why a detector cannot be read, if it cannot.
pub open spec fn detector_refusal<A>(
    plan: PresampledExpressionPlan,
    detector: RecordDetector,
    i: int,
    b: Block<A>,
) -> Option<Seq<char>> {
    if detector.records@.len() > 0 {
        if records_exist(detector.records@, b.nrecords) {
            None
        } else {
            Some("detector references an out-of-range measurement record"@)
        }
    } else if detector.outcome.conditions@.len() == 0 {
        None
    } else {
        sign_refusal(plan, i, b)
    }
}

// ---------------------------------------------------------------------------
// Writes
// ---------------------------------------------------------------------------
impl<A> Shot<A> {
    pub open spec fn with_value(self, c: i32, value: bool) -> Shot<A> {
        Shot { values: self.values.insert(c, value), ..self }
    }

    /// Record `id` holds `value`; there are `count` records afterwards.
    pub open spec fn with_record(self, id: int, count: int, value: bool) -> Shot<A> {
        Shot {
            records: Seq::new(
                count as nat,
                |q: int|
                    if q == id - 1 {
                        value
                    } else {
                        q < self.records.len() && self.records[q]
                    },
            ),
            ..self
        }
    }

    /// Detector `id` holds `value`; there are `count` stored detectors afterwards.
    pub open spec fn with_detector(self, id: int, count: int, stored: bool, value: bool) -> Shot<A> {
        Shot {
            detectors: if stored {
                Seq::new(
                    count as nat,
                    |q: int|
                        if q == id - 1 {
                            value
                        } else {
                            q < self.detectors.len() && self.detectors[q]
                        },
                )
            } else {
                self.detectors
            },
            fired: self.fired || value,
            ..self
        }
    }

    pub open spec fn with_exp(self, e: int, value: u64) -> Shot<A> {
        Shot { exps: self.exps.update(e, value), ..self }
    }

    pub open spec fn with_lane(self, j: int, lane: Seq<A>) -> Shot<A> {
        Shot { lanes: self.lanes.update(j, lane), ..self }
    }
}

/// The symbol takes the bits.
pub open spec fn with_values<A>(b: Block<A>, c: i32, bits: Seq<bool>) -> Block<A> {
    Block {
        known: b.known.insert(c),
        shots: Seq::new(b.shots.len(), |s: int| b.shots[s].with_value(c, bits[s])),
        ..b
    }
}

/// Every shot holds the bit.
pub open spec fn values_match<A>(b: Block<A>, c: i32, bits: Seq<bool>) -> bool {
    forall|s: int| 0 <= s < b.shots.len() ==> (#[trigger] b.shots[s]).values[c] == bits[s]
}

/// Assigns a symbol. Assigning again must match.
pub open spec fn assign<A>(b: Block<A>, c: i32, bits: Seq<bool>) -> Outcome<A> {
    if !(0 < c <= b.nsymbols) {
        Err("symbolic condition exceeds batch executor symbol table"@)
    } else if b.known.contains(c) {
        if values_match(b, c, bits) {
            Ok(b)
        } else {
            Err("symbolic condition was assigned inconsistent concrete batch values"@)
        }
    } else {
        Ok(with_values(b, c, bits))
    }
}

pub open spec fn with_records<A>(b: Block<A>, id: int, bits: Seq<bool>) -> Block<A> {
    let count = if id > b.nrecords {
        id
    } else {
        b.nrecords
    };
    Block {
        nrecords: count,
        shots: Seq::new(b.shots.len(), |s: int| b.shots[s].with_record(id, count, bits[s])),
        ..b
    }
}

/// Writes the record of a measurement, then the symbol that follows it.
pub open spec fn write_measurement<A>(
    b: Block<A>,
    record: Option<i32>,
    bits: Seq<bool>,
    condition: Option<i32>,
) -> Outcome<A> {
    if record is Some && record->0 <= 0 {
        Err("measurement record id must be positive"@)
    } else {
        let written = match record {
            Some(id) => with_records(b, id as int, bits),
            None => b,
        };
        match condition {
            Some(c) => assign(written, c, bits),
            None => Ok(written),
        }
    }
}

pub open spec fn with_detectors<A>(b: Block<A>, id: int, bits: Seq<bool>) -> Block<A> {
    let count = if b.stores_detectors && id > b.ndetectors {
        id
    } else {
        b.ndetectors
    };
    Block {
        ndetectors: count,
        shots: Seq::new(
            b.shots.len(),
            |s: int| b.shots[s].with_detector(id, count, b.stores_detectors, bits[s]),
        ),
        ..b
    }
}

pub open spec fn write_detector<A>(b: Block<A>, id: i32, bits: Seq<bool>) -> Outcome<A> {
    if id <= 0 {
        Err("detector id must be positive"@)
    } else {
        Ok(with_detectors(b, id as int, bits))
    }
}

pub open spec fn with_exps<A>(b: Block<A>, e: int, values: Seq<u64>) -> Block<A> {
    Block { shots: Seq::new(b.shots.len(), |s: int| b.shots[s].with_exp(e, values[s])), ..b }
}

/// Writes an expectation slot.
pub open spec fn write_exp<A>(b: Block<A>, exp_val: i32, values: Seq<u64>) -> Outcome<A> {
    if exp_val < 0 || exp_val >= b.nexpvals {
        Err("expectation value index is out of range"@)
    } else {
        Ok(with_exps(b, exp_val as int, values))
    }
}

/// The bits of one, negated where the outcome is set.
pub open spec fn unit_bits(outcome: bool) -> u64 {
    if outcome {
        0xbff0_0000_0000_0000
    } else {
        0x3ff0_0000_0000_0000
    }
}

/// Every part `j` lane is replaced.
pub open spec fn with_lanes<A>(b: Block<A>, j: int, part: Part, lanes: Seq<Seq<A>>) -> Block<A> {
    Block {
        parts: b.parts.update(j, part),
        shots: Seq::new(b.shots.len(), |s: int| b.shots[s].with_lane(j, lanes[s])),
        ..b
    }
}

pub open spec fn part_lanes<A>(b: Block<A>, j: int) -> Seq<Seq<A>> {
    Seq::new(b.shots.len(), |s: int| b.shots[s].lanes[j])
}

// ---------------------------------------------------------------------------
// The active state
// ---------------------------------------------------------------------------
/// Rotates a part.
pub open spec fn rotate<A, K: ActiveKernels<A>>(
    k: &K,
    b: Block<A>,
    j: int,
    kernel: RotationKernel,
    bits: Seq<bool>,
) -> Outcome<A> {
    if kernel.action.nqubits != b.parts[j].k {
        Err("rotation kernel dimension does not match batch active state"@)
    } else {
        Ok(
            with_lanes(
                b,
                j,
                b.parts[j],
                Seq::new(
                    b.shots.len(),
                    |s: int| rotated(k, kernel, bits[s], b.shots[s].lanes[j]),
                ),
            ),
        )
    }
}

/// Takes a dormant qubit into the whole active state.
pub open spec fn promote<A, K: ActiveKernels<A>>(
    k: &K,
    b: Block<A>,
    kernel_angle: u64,
    bits: Seq<bool>,
) -> Outcome<A> {
    if b.ndormant == 0 {
        Err("cannot promote a dormant qubit when none remain"@)
    } else if b.parts[0].stride < 2 * dimension(b.parts[0].k) {
        if b.shot_major {
            Err("batch active shot-major stride is too short for dormant promotion"@)
        } else {
            Err("batch active storage has too few columns for dormant promotion"@)
        }
    } else {
        let wide = with_lanes(
            b,
            0,
            Part { k: b.parts[0].k + 1, ..b.parts[0] },
            Seq::new(
                b.shots.len(),
                |s: int| promoted(k, kernel_angle, bits[s], b.shots[s].lanes[0]),
            ),
        );
        Ok(Block { k: b.k + 1, ndormant: b.ndormant - 1, ..wide })
    }
}

/// Measures a part: the block afterwards and the branches.
pub open spec fn measure<A, K: ActiveKernels<A>>(
    k: &K,
    b: Block<A>,
    j: int,
    kernel: MeasurementKernel,
) -> core::result::Result<(Block<A>, Seq<bool>), Seq<char>> {
    if b.parts[j].k == 0 {
        Err("cannot measure an active Pauli when k == 0"@)
    } else if kernel.action.nqubits != b.parts[j].k {
        Err("measurement kernel dimension does not match batch active state"@)
    } else {
        match measured_lanes(k, kernel, part_lanes(b, j), b.rng, b.shots.len() as int) {
            None => Err("sampled an impossible active measurement branch"@),
            Some((rng, branches, lanes)) => {
                let narrow = with_lanes(b, j, Part { k: b.parts[j].k - 1, ..b.parts[j] }, lanes);
                Ok((Block { rng, k: b.k - 1, ndormant: b.ndormant + 1, ..narrow }, branches))
            },
        }
    }
}

/// Measures a part and gives the branch symbol its values.
pub open spec fn measure_branch<A, K: ActiveKernels<A>>(
    k: &K,
    b: Block<A>,
    j: int,
    kernel: MeasurementKernel,
    branch: i32,
) -> core::result::Result<(Block<A>, Seq<bool>), Seq<char>> {
    match measure(k, b, j, kernel) {
        Err(text) => Err(text),
        Ok((after, branches)) => match assign(after, branch, branches) {
            Err(text) => Err(text),
            Ok(assigned) => Ok((assigned, branches)),
        },
    }
}

/// The expectations of a Pauli of a part.
pub open spec fn expect_part<A, K: ActiveKernels<A>>(
    k: &K,
    b: Block<A>,
    j: int,
    kernel: MeasurementKernel,
    outcomes: Seq<bool>,
    exp_val: i32,
) -> Outcome<A> {
    if b.parts[j].k == 0 {
        Err("cannot measure an active Pauli when k == 0"@)
    } else if kernel.action.nqubits != b.parts[j].k {
        Err("measurement kernel dimension does not match batch active state"@)
    } else {
        write_exp(
            b,
            exp_val,
            Seq::new(
                b.shots.len(),
                |s: int| expectation(k, kernel, outcomes[s], b.shots[s].lanes[j]),
            ),
        )
    }
}

// ---------------------------------------------------------------------------
// Instructions
// ---------------------------------------------------------------------------
/// The generator after `n` draws, and the drawn words.
pub open spec fn coin_words<A, K: ActiveKernels<A>>(k: &K, rng: u64, n: int) -> (u64, Seq<u64>)
    decreases n,
{
    if n <= 0 {
        (rng, Seq::empty())
    } else {
        let (state, words) = coin_words::<A, K>(k, rng, n - 1);
        let (next, word) = random_of::<A, K>(k, state);
        (next, words.push(word))
    }
}

/// A fair coin for every shot: one draw for every 64 shots.
pub open spec fn coins<A, K: ActiveKernels<A>>(k: &K, b: Block<A>) -> (u64, Seq<bool>) {
    let (next, words) = coin_words::<A, K>(k, b.rng, words_for_bits(b.shots.len() as int));
    (next, Seq::new(b.shots.len(), |s: int| row_bit(words, s)))
}

/// The outcome is the branch itself, possibly negated.
pub open spec fn is_direct(plan: SymbolicBoolEvaluationPlan, branch: i32) -> bool {
    plan.conditions@.len() == 1 && plan.conditions@[0] == branch
}

/// Writes what a drawn branch means for the records.
pub open spec fn write_branch<A>(
    base: spec_fn(int, int) -> bool,
    plan: PresampledExpressionPlan,
    i: int,
    b: Block<A>,
    branches: Seq<bool>,
    branch: i32,
    outcome_plan: SymbolicBoolEvaluationPlan,
    record: Option<i32>,
    condition: Option<i32>,
) -> Outcome<A> {
    if is_direct(outcome_plan, branch) {
        write_measurement(
            b,
            record,
            Seq::new(b.shots.len(), |s: int| branches[s] != outcome_plan.constant),
            condition,
        )
    } else {
        match sign_refusal(plan, i, b) {
            Some(text) => Err(text),
            None => write_measurement(b, record, signs(base, plan, i, b), condition),
        }
    }
}

/// An instruction on the whole active state.
pub open spec fn step_whole<A, K: ActiveKernels<A>>(
    k: &K,
    base: spec_fn(int, int) -> bool,
    plan: PresampledExpressionPlan,
    ins: FactoredInstruction,
    i: int,
    b: Block<A>,
) -> Outcome<A> {
    match ins {
        FactoredInstruction::ApplyPrecomputedActivePauliRotation(inst) => match sign_refusal(
            plan,
            i,
            b,
        ) {
            Some(text) => Err(text),
            None => rotate(k, b, 0, inst.rotation_kernel, signs(base, plan, i, b)),
        },
        FactoredInstruction::PromoteDormantRotation(inst) => match sign_refusal(plan, i, b) {
            Some(text) => Err(text),
            None => promote(k, b, inst.kernel_angle, signs(base, plan, i, b)),
        },
        FactoredInstruction::RecordMeasurement(inst) => match sign_refusal(plan, i, b) {
            Some(text) => Err(text),
            None => match inst.exp_val {
                Some(e) => write_exp(
                    b,
                    e,
                    Seq::new(b.shots.len(), |s: int| unit_bits(signs(base, plan, i, b)[s])),
                ),
                None => write_measurement(
                    b,
                    inst.record,
                    signs(base, plan, i, b),
                    inst.record_condition,
                ),
            },
        },
        FactoredInstruction::RecordDetector(inst) => match detector_refusal(plan, inst, i, b) {
            Some(text) => Err(text),
            None => write_detector(b, inst.detector, detector_outcomes(base, plan, inst, i, b)),
        },
        FactoredInstruction::MeasurePrecomputedActivePauli(inst) => match inst.exp_val {
            Some(e) => match sign_refusal(plan, i, b) {
                Some(text) => Err(text),
                None => expect_part(k, b, 0, inst.kernel, signs(base, plan, i, b), e),
            },
            None => match measure_branch(k, b, 0, inst.kernel, inst.branch) {
                Err(text) => Err(text),
                Ok((after, branches)) => write_branch(
                    base,
                    plan,
                    i,
                    after,
                    branches,
                    inst.branch,
                    inst.outcome_plan,
                    inst.record,
                    inst.record_condition,
                ),
            },
        },
        FactoredInstruction::IntroduceDormantMeasurementBranch(inst) => match inst.exp_val {
            Some(e) => write_exp(b, e, Seq::new(b.shots.len(), |s: int| 0u64)),
            None => {
                let (next, drawn) = coins(k, b);
                match assign(Block { rng: next, ..b }, inst.branch, drawn) {
                    Err(text) => Err(text),
                    Ok(after) => write_branch(
                        base,
                        plan,
                        i,
                        after,
                        drawn,
                        inst.branch,
                        inst.outcome_plan,
                        inst.record,
                        inst.record_condition,
                    ),
                }
            },
        },
    }
}

/// Merges one part into another.
pub open spec fn merge_one<A, K: ActiveKernels<A>>(
    k: &K,
    b: Block<A>,
    target: int,
    source: int,
) -> Outcome<A> {
    if !(0 <= source < b.parts.len()) || source == target {
        Err("active component merge has an invalid source"@)
    } else if !b.parts[source].active {
        Err("active component merge source is inactive"@)
    } else if dimension(b.parts[target].k + b.parts[source].k) > usize::MAX {
        Err("active state width is out of range"@)
    } else if b.parts[target].stride < dimension(b.parts[target].k + b.parts[source].k) {
        Err("active component merge target has insufficient storage"@)
    } else {
        let merged = with_lanes(
            b,
            target,
            Part { k: b.parts[target].k + b.parts[source].k, ..b.parts[target] },
            Seq::new(
                b.shots.len(),
                |s: int| tensor(k, b.shots[s].lanes[target], b.shots[s].lanes[source]),
            ),
        );
        Ok(
            with_lanes(
                merged,
                source,
                Part { k: 0, active: false, ..b.parts[source] },
                Seq::new(b.shots.len(), |s: int| Seq::empty()),
            ),
        )
    }
}

/// Merges the listed parts from `from` to `end` into the target.
pub open spec fn merge_from<A, K: ActiveKernels<A>>(
    k: &K,
    b: Block<A>,
    list: Seq<usize>,
    target: int,
    from: int,
    end: int,
) -> Outcome<A>
    decreases end - from,
{
    if from >= end {
        Ok(b)
    } else {
        match merge_one(k, b, target, list[from] as int) {
            Err(text) => Err(text),
            Ok(next) => merge_from(k, next, list, target, from + 1, end),
        }
    }
}

/// Merges a range of the merge list into its first part.
pub open spec fn merge<A, K: ActiveKernels<A>>(
    k: &K,
    b: Block<A>,
    list: Seq<usize>,
    offset: int,
    count: int,
    expected: int,
) -> Outcome<A> {
    if count == 0 || offset + count > list.len() {
        Err("active component instruction has an invalid merge range"@)
    } else if list[offset] != expected || list[offset] >= b.parts.len() {
        Err("active component merge has an invalid target"@)
    } else if !b.parts[expected].active {
        Err("active component merge target is inactive"@)
    } else {
        merge_from(k, b, list, expected, offset + 1, offset + count)
    }
}

/// Switches a part on with one dormant qubit.
pub open spec fn promote_part<A, K: ActiveKernels<A>>(
    k: &K,
    b: Block<A>,
    j: int,
    kernel_angle: u64,
    bits: Seq<bool>,
) -> Outcome<A> {
    if b.ndormant == 0 || j >= b.parts.len() {
        Err("active component promotion is invalid"@)
    } else if b.parts[j].active || b.parts[j].stride < 2 {
        Err("active component promotion target is unavailable"@)
    } else {
        let wide = with_lanes(
            b,
            j,
            Part { k: 1, active: true, ..b.parts[j] },
            Seq::new(
                b.shots.len(),
                |s: int| promoted(k, kernel_angle, bits[s], seq![one_of::<A, K>(k)]),
            ),
        );
        Ok(Block { k: b.k + 1, ndormant: b.ndormant - 1, ..wide })
    }
}

/// An instruction on the split active state.
pub open spec fn step_split<A, K: ActiveKernels<A>>(
    k: &K,
    base: spec_fn(int, int) -> bool,
    plan: PresampledExpressionPlan,
    parts: ActiveComponentPlan,
    ins: FactoredInstruction,
    i: int,
    b: Block<A>,
) -> Outcome<A> {
    let step = parts.instruction_steps@[i];
    match step.kind {
        ActiveComponentStepKind::IgnoredGlobalPhase => Ok(b),
        ActiveComponentStepKind::Rotation => match ins {
            FactoredInstruction::ApplyPrecomputedActivePauliRotation(_) => {
                let rotation = parts.rotations@[step.payload as int];
                match sign_refusal(plan, i, b) {
                    Some(text) => Err(text),
                    None => match merge(
                        k,
                        b,
                        parts.merge_components@,
                        rotation.merge_offset as int,
                        rotation.merge_count as int,
                        rotation.component as int,
                    ) {
                        Err(text) => Err(text),
                        Ok(merged) => rotate(
                            k,
                            merged,
                            rotation.component as int,
                            rotation.kernel,
                            signs(base, plan, i, b),
                        ),
                    },
                }
            },
            _ => Err("component rotation step does not match its instruction"@),
        },
        ActiveComponentStepKind::Promotion => match ins {
            FactoredInstruction::PromoteDormantRotation(inst) => match sign_refusal(plan, i, b) {
                Some(text) => Err(text),
                None => promote_part(
                    k,
                    b,
                    parts.promotions@[step.payload as int].component as int,
                    inst.kernel_angle,
                    signs(base, plan, i, b),
                ),
            },
            _ => Err("component promotion step does not match its instruction"@),
        },
        ActiveComponentStepKind::Measurement => match ins {
            FactoredInstruction::MeasurePrecomputedActivePauli(inst) => {
                let measurement = parts.measurements@[step.payload as int];
                let at = measurement.component as int;
                match merge(
                    k,
                    b,
                    parts.merge_components@,
                    measurement.merge_offset as int,
                    measurement.merge_count as int,
                    at,
                ) {
                    Err(text) => Err(text),
                    Ok(merged) => match measure_branch(
                        k,
                        merged,
                        at,
                        measurement.kernel,
                        inst.branch,
                    ) {
                        Err(text) => Err(text),
                        Ok((after, branches)) => if measurement.deactivate_after
                            && after.parts[at].k != 0 {
                            Err("active component measurement did not remove its last coordinate"@)
                        } else {
                            let left = if measurement.deactivate_after {
                                with_lanes(
                                    after,
                                    at,
                                    Part { active: false, ..after.parts[at] },
                                    Seq::new(after.shots.len(), |s: int| Seq::empty()),
                                )
                            } else {
                                after
                            };
                            write_branch(
                                base,
                                plan,
                                i,
                                left,
                                branches,
                                inst.branch,
                                inst.outcome_plan,
                                inst.record,
                                inst.record_condition,
                            )
                        },
                    },
                }
            },
            _ => Err("component measurement step does not match its instruction"@),
        },
        ActiveComponentStepKind::Unaffected => step_whole(k, base, plan, ins, i, b),
    }
}

/// What instruction `i` makes of a block.
pub open spec fn step<A, K: ActiveKernels<A>>(
    k: &K,
    base: spec_fn(int, int) -> bool,
    plan: PresampledExpressionPlan,
    program: &FactoredInstructionProgram,
    i: int,
    b: Block<A>,
) -> Outcome<A> {
    if b.split {
        step_split(
            k,
            base,
            plan,
            program.active_component_plan->0,
            program.instructions@[i],
            i,
            b,
        )
    } else {
        step_whole(k, base, plan, program.instructions@[i], i, b)
    }
}

/// What the instructions from `from` to `end` make of a block.
pub open spec fn run<A, K: ActiveKernels<A>>(
    k: &K,
    base: spec_fn(int, int) -> bool,
    plan: PresampledExpressionPlan,
    program: &FactoredInstructionProgram,
    from: int,
    end: int,
    b: Block<A>,
) -> Outcome<A>
    decreases end - from,
{
    if from >= end {
        Ok(b)
    } else {
        match step(k, base, plan, program, from, b) {
            Err(text) => Err(text),
            Ok(next) => run(k, base, plan, program, from + 1, end, next),
        }
    }
}

/// Running on past the middle.
pub proof fn lemma_run_split<A, K: ActiveKernels<A>>(
    k: &K,
    base: spec_fn(int, int) -> bool,
    plan: PresampledExpressionPlan,
    program: &FactoredInstructionProgram,
    from: int,
    mid: int,
    end: int,
    b: Block<A>,
)
    requires
        from <= mid <= end,
    ensures
        run(k, base, plan, program, from, end, b) == match run(
            k,
            base,
            plan,
            program,
            from,
            mid,
            b,
        ) {
            Err(text) => Err(text),
            Ok(next) => run(k, base, plan, program, mid, end, next),
        },
    decreases mid - from,
{
    if from < mid {
        match step(k, base, plan, program, from, b) {
            Err(_) => {},
            Ok(next) => {
                lemma_run_split(k, base, plan, program, from + 1, mid, end, next);
            },
        }
    }
}

} // verus!
