//! Batch executor state: symbols, records and detectors of many shots at once,
//! stored as bit-planes of 64 shots per word, next to the active amplitudes.
//!
//! Two amplitude layouts share one state struct, selected by
//! `dense_shot_major_active`: shot-major (`active[shot * active_stride + basis]`,
//! each shot a contiguous vector) and basis-major
//! (`active[basis * active_pitch + shot]`). `batch_words` counts *capacity* words;
//! what is live ends at `active_shots`. The amplitudes are of a type `A` of the
//! caller's; nothing here computes with them.
use vstd::prelude::*;
use crate::bits::{lemma_word_ext, row_bit, symbol_bit, symbol_word_count, word_bit, words_for_bits};
use crate::errors::{Result, TicitError};
use crate::exogenous::live_word_mask_for_shots;
use crate::planes::{lemma_plane_index, plane_bit};
use crate::program::{ActiveComponentPlan, FactoredInstructionProgram};

verus! {

broadcast use crate::bits::group_word_bits;

pub const DEFAULT_BATCH_SHOTS: usize = 2048;

pub const DEFAULT_BATCH_ACTIVE_AMPLITUDES: usize = 32768;

pub const BATCH_ACTIVE_LANE_ALIGNMENT: usize = 4;

/// How many basis states `k` qubits have.
pub open spec fn dimension(k: int) -> int
    decreases k,
{
    if k <= 0 {
        1
    } else {
        2 * dimension(k - 1)
    }
}

pub proof fn lemma_dimension_positive(k: int)
    ensures
        dimension(k) >= 1,
    decreases k,
{
    if k > 0 {
        lemma_dimension_positive(k - 1);
    }
}

pub proof fn lemma_dimension_grows(j: int, k: int)
    requires
        j <= k,
    ensures
        dimension(j) <= dimension(k),
    decreases k - j,
{
    if j < k {
        lemma_dimension_grows(j, k - 1);
        lemma_dimension_positive(k - 1);
    }
}

pub proof fn lemma_dimension_sum(j: int, k: int)
    requires
        0 <= j,
        0 <= k,
    ensures
        dimension(j + k) == dimension(j) * dimension(k),
    decreases k,
{
    if k > 0 {
        lemma_dimension_sum(j, k - 1);
        assert(dimension(j + k) == 2 * dimension(j + k - 1));
        assert(dimension(j) * dimension(k) == 2 * (dimension(j) * dimension(k - 1))) by (
        nonlinear_arith)
            requires
                dimension(k) == 2 * dimension(k - 1),
        ;
    } else {
        assert(dimension(j) * 1 == dimension(j));
    }
}

/// How many amplitudes an active state of `k` qubits has, if that many can be
/// addressed.
pub fn active_length(k: usize) -> (r: Result<usize>)
    ensures
        match r {
            Ok(dim) => dim == dimension(k as int),
            Err(e) => dimension(k as int) > usize::MAX && e@ == "active state width is out of range"@,
        },
{
    let mut dim: usize = 1;
    let mut i: usize = 0;
    while i < k
        invariant
            i <= k,
            dim == dimension(i as int),
        decreases k - i,
    {
        match dim.checked_mul(2) {
            Some(next) => {
                dim = next;
            },
            None => {
                proof {
                    lemma_dimension_grows(i + 1, k as int);
                }
                return Err(TicitError::new("active state width is out of range"));
            },
        }
        i += 1;
    }
    Ok(dim)
}

/// Shots that fit together into the budget of active amplitudes.
pub open spec fn default_batches(max_k: int) -> int {
    let fit = 32768int / dimension(max_k);
    if fit < 1 {
        1
    } else if fit < 2048 {
        fit
    } else {
        2048
    }
}

/// Shots to run together, so that the amplitudes stay within a budget.
pub fn default_batch_count(max_k: usize) -> (r: Result<usize>)
    ensures
        match r {
            Ok(count) => dimension(max_k as int) <= usize::MAX && count == default_batches(
                max_k as int,
            ),
            Err(e) => dimension(max_k as int) > usize::MAX && e@ == "active state width is out of range"@,
        },
{
    match active_length(max_k) {
        Err(e) => Err(e),
        Ok(dim) => {
            proof {
                lemma_dimension_positive(max_k as int);
            }
            let fit: usize = DEFAULT_BATCH_ACTIVE_AMPLITUDES / dim;
            let count: usize = if fit < 1 {
                1
            } else if fit < DEFAULT_BATCH_SHOTS {
                fit
            } else {
                DEFAULT_BATCH_SHOTS
            };
            Ok(count)
        },
    }
}

/// How many words hold `shots` bits.
pub fn batch_word_count(shots: usize) -> (r: usize)
    ensures
        r == words_for_bits(shots as int),
{
    symbol_word_count(shots)
}

/// Shot lanes, padded to whole groups of lanes.
pub open spec fn padded_pitch(capacity: int) -> int {
    if capacity <= 1 {
        1
    } else if capacity == 2 {
        2
    } else {
        (capacity + 3) / 4 * 4
    }
}

pub fn padded_batch_active_pitch(shot_capacity: usize) -> (r: usize)
    requires
        shot_capacity + 3 <= usize::MAX,
    ensures
        r == padded_pitch(shot_capacity as int),
        r >= shot_capacity,
        r >= 1,
{
    if shot_capacity <= 2 {
        return if shot_capacity < 1 {
            1
        } else {
            shot_capacity
        };
    }
    (shot_capacity + 3) / BATCH_ACTIVE_LANE_ALIGNMENT * BATCH_ACTIVE_LANE_ALIGNMENT
}

/// One tensor factor of the active state when component execution is on.
#[derive(Clone, Debug)]
pub struct BatchActiveComponent<A> {
    pub k: usize,
    pub active: bool,
    /// Allocated dimension; doubles as the shot-major stride.
    pub stride: usize,
    pub amplitudes: Vec<A>,
}

/// Batched runtime state. Reused across blocks via [`reset_batch_executor`].
#[derive(Clone, Debug)]
pub struct BatchFactoredExecutorState<A> {
    pub n: usize,
    pub k: usize,
    pub ndormant: usize,
    /// Shot capacity, fixed at construction.
    pub batches: usize,
    /// Live shots in the current block; shrinks under postselection.
    pub active_shots: usize,
    /// Padded shot-lane count, derived from `batches`.
    pub active_pitch: usize,
    /// Shot-major row stride of the dense layout.
    pub active_stride: usize,
    pub nsymbols: usize,
    pub nrecords: usize,
    pub ndetectors: usize,
    pub nexpvals: usize,
    pub max_k: usize,
    /// Capacity words; the allocation stride of every bit-plane.
    pub batch_words: usize,
    /// When false only `detector_any_words` is maintained.
    pub store_detector_records: bool,
    pub dense_shot_major_active: bool,
    pub active: Vec<A>,
    /// `[(condition - 1) * batch_words + word]`.
    pub value_words: Vec<u64>,
    /// Bit `condition - 1` is set once the condition has concrete values for the
    /// whole batch.
    pub assigned_words: Vec<u64>,
    /// `[(record - 1) * batch_words + word]`.
    pub measurement_words: Vec<u64>,
    /// `[(detector - 1) * batch_words + word]`.
    pub detector_words: Vec<u64>,
    /// OR of every detector column.
    pub detector_any_words: Vec<u64>,
    /// `[exp_val * batches + shot]`, as the bits of a double.
    pub exp_values: Vec<u64>,
    pub active_components_enabled: bool,
    pub active_components: Vec<BatchActiveComponent<A>>,
    /// One shared generator state for the whole batch.
    pub rng_state: u64,
}

/// No record has a bit behind the last shot that there is room for.
#[verifier::opaque]
pub open spec fn records_end(words: Seq<u64>, stride: int, records: int, shots: int) -> bool {
    forall|q: int, i: int|
        0 <= q < records && shots <= i ==> !#[trigger] plane_bit(words, stride, q, i)
}

impl<A: Copy> BatchFactoredExecutorState<A> {
    /// The bit-planes have the sizes that the counts ask for.
    pub open spec fn planes_wf(&self) -> bool {
        &&& self.active_shots <= self.batches
        &&& self.batches + 63 <= usize::MAX
        &&& self.batch_words == words_for_bits(self.batches as int)
        &&& self.value_words@.len() == self.nsymbols * self.batch_words
        &&& self.assigned_words@.len() == words_for_bits(self.nsymbols as int)
        &&& self.measurement_words@.len() == self.nrecords * self.batch_words
        &&& records_end(
            self.measurement_words@,
            self.batch_words as int,
            self.nrecords as int,
            self.batches as int,
        )
        &&& self.store_detector_records ==> self.detector_words@.len() == self.ndetectors
            * self.batch_words
        &&& self.detector_any_words@.len() == self.batch_words
        &&& self.exp_values@.len() == self.nexpvals * self.batches
        &&& forall|c: i32| #[trigger] self.assigned(c) && c > 0 ==> c <= self.nsymbols
    }

    /// The dense amplitudes have room for the active state of every lane.
    pub open spec fn dense_wf(&self) -> bool {
        &&& self.active_pitch == padded_pitch(self.batches as int)
        &&& self.active_pitch >= self.batches
        &&& self.active@.len() == self.active_stride * self.active_pitch
    }

    /// Every component has room for its coordinates in every lane.
    pub open spec fn components_wf(&self) -> bool {
        &&& self.active_pitch == padded_pitch(self.batches as int)
        &&& self.active_pitch >= self.batches
        &&& forall|j: int|
            0 <= j < self.active_components@.len() ==> component_wf(
                #[trigger] self.active_components@[j],
                self.active_pitch as int,
            )
    }

    pub open spec fn wf(&self) -> bool {
        &&& self.planes_wf()
        &&& self.k + self.ndormant == self.n
        &&& if self.active_components_enabled {
            self.components_wf()
        } else {
            self.dense_wf()
        }
    }

    /// The condition has concrete values.
    pub open spec fn assigned(&self, c: i32) -> bool {
        row_bit(self.assigned_words@, symbol_bit(c as int))
    }

    /// The value of a condition for one shot.
    pub open spec fn value_bit(&self, c: i32, shot: int) -> bool {
        plane_bit(self.value_words@, self.batch_words as int, c - 1, shot)
    }

    /// The values of one shot.
    pub open spec fn valuation(&self, shot: int) -> spec_fn(i32) -> bool {
        |c: i32| self.value_bit(c, shot)
    }

    /// The value of a one-based record for one shot.
    pub open spec fn record_bit(&self, record: int, shot: int) -> bool {
        plane_bit(self.measurement_words@, self.batch_words as int, record - 1, shot)
    }

    /// The value of a one-based detector for one shot.
    pub open spec fn detector_bit(&self, detector: int, shot: int) -> bool {
        plane_bit(self.detector_words@, self.batch_words as int, detector - 1, shot)
    }

    /// How many words hold live shots.
    pub open spec fn live_words(&self) -> int {
        words_for_bits(self.active_shots as int)
    }

    pub fn live_word_count(&self) -> (r: usize)
        ensures
            r == self.live_words(),
    {
        batch_word_count(self.active_shots)
    }

    /// The mask of the live shots in a word.
    pub fn live_word_mask(&self, word: usize) -> (r: u64)
        ensures
            crate::exogenous::is_live_mask(r, self.active_shots as int, word as int),
    {
        live_word_mask_for_shots(self.active_shots, word)
    }
}

pub open spec fn component_wf<A>(component: BatchActiveComponent<A>, pitch: int) -> bool {
    &&& component.amplitudes@.len() == component.stride * pitch
    &&& component.active ==> dimension(component.k as int) <= component.stride
}

// ---------------------------------------------------------------------------
// Reset
// ---------------------------------------------------------------------------
/// Resizes a list; new entries are `fill`.
pub fn resize_list<T: Copy>(list: &mut Vec<T>, len: usize, fill: T)
    ensures
        final(list)@.len() == len,
        forall|i: int|
            0 <= i < len ==> #[trigger] final(list)@[i] == if i < old(list)@.len() {
                old(list)@[i]
            } else {
                fill
            },
{
    let ghost start = list@;
    while list.len() > len
        invariant
            list@.len() <= start.len(),
            list@.len() < start.len() ==> list@.len() >= len,
            forall|i: int| 0 <= i < list@.len() ==> #[trigger] list@[i] == start[i],
        decreases list@.len(),
    {
        list.pop();
    }
    while list.len() < len
        invariant
            list@.len() <= len,
            forall|i: int|
                0 <= i < list@.len() ==> #[trigger] list@[i] == if i < start.len() {
                    start[i]
                } else {
                    fill
                },
            list@.len() < start.len() ==> list@.len() == len,
        decreases len - list@.len(),
    {
        list.push(fill);
    }
}

/// A list of `len` copies.
pub fn filled_list<T: Copy>(len: usize, fill: T) -> (r: Vec<T>)
    ensures
        r@.len() == len,
        forall|i: int| 0 <= i < len ==> #[trigger] r@[i] == fill,
{
    let mut out: Vec<T> = Vec::new();
    let mut i: usize = 0;
    while i < len
        invariant
            i <= len,
            out@.len() == i,
            forall|k: int| 0 <= k < i ==> #[trigger] out@[k] == fill,
        decreases len - i,
    {
        out.push(fill);
        i += 1;
    }
    out
}

/// The sizes that a program asks of an executor fit in memory.
pub open spec fn program_fits(program: &FactoredInstructionProgram, batches: int) -> bool {
    let words = words_for_bits(batches);
    let pitch = padded_pitch(batches);
    &&& batches + 63 <= usize::MAX
    &&& program.nsymbols * words <= usize::MAX
    &&& program.nrecords * words <= usize::MAX
    &&& program.ndetectors * words <= usize::MAX
    &&& program.nexpvals * batches <= usize::MAX
    &&& program.initial_k <= program.n
    &&& program.initial_k <= program.max_k
    &&& dimension(program.max_k as int) <= usize::MAX ==> dimension(program.max_k as int) * pitch
        <= usize::MAX
    &&& match program.active_component_plan {
        Some(plan) => forall|j: int|
            0 <= j < plan.component_max_k@.len() ==> dimension(
                #[trigger] plan.component_max_k@[j] as int,
            ) * pitch <= usize::MAX,
        None => true,
    }
}

/// The plan numbers every instruction.
pub open spec fn plan_matches(program: &FactoredInstructionProgram) -> bool {
    match program.active_component_plan {
        Some(plan) => plan.instruction_steps@.len() == program.instructions@.len(),
        None => false,
    }
}

/// Why component execution cannot be set up, if it cannot.
pub open spec fn component_refusal(program: &FactoredInstructionProgram) -> Option<Seq<char>> {
    if !program.use_active_components {
        None
    } else if !plan_matches(program) {
        Some("program does not contain an executable active component plan"@)
    } else {
        let plan = program.active_component_plan->0;
        if plan.component_count != plan.component_max_k@.len() {
            Some("active component plan has inconsistent component capacities"@)
        } else if plan.initial_components != program.initial_k {
            Some("active component plan has the wrong initial component count"@)
        } else if exists|j: int|
            0 <= j < plan.initial_components && #[trigger] plan.component_max_k@[j] == 0 {
            Some("initial active component has insufficient storage"@)
        } else {
            None
        }
    }
}

/// The plan does not name more initial components than it has.
pub open spec fn initial_components_exist(program: &FactoredInstructionProgram) -> bool {
    match program.active_component_plan {
        Some(plan) => plan.initial_components <= plan.component_max_k@.len(),
        None => true,
    }
}

/// Amplitudes of the first basis state, in one lane layout: one at basis zero of
/// every live shot, zero up to `dim`.
pub open spec fn starts_at_zero<A>(
    amplitudes: Seq<A>,
    shot_major: bool,
    stride: int,
    pitch: int,
    dim: int,
    shots: int,
    zero: A,
    one: A,
) -> bool {
    forall|shot: int, basis: int|
        0 <= shot < shots && 0 <= basis < dim ==> #[trigger] amplitudes[lane_index(
            shot_major,
            stride,
            pitch,
            shot,
            basis,
        )] == if basis == 0 {
            one
        } else {
            zero
        }
}

/// Where the amplitude of a basis state of a shot stands.
pub open spec fn lane_index(shot_major: bool, stride: int, pitch: int, shot: int, basis: int) -> int {
    if shot_major {
        shot * stride + basis
    } else {
        basis * pitch + shot
    }
}

pub proof fn lemma_lane_index(
    shot_major: bool,
    stride: int,
    pitch: int,
    shot: int,
    basis: int,
)
    requires
        0 <= shot < pitch,
        0 <= basis < stride,
    ensures
        0 <= lane_index(shot_major, stride, pitch, shot, basis) < stride * pitch,
        0 <= shot * stride,
        0 <= basis * pitch,
{
    if shot_major {
        lemma_plane_index(stride, pitch, shot, basis);
        assert(pitch * stride == stride * pitch) by (nonlinear_arith);
    } else {
        lemma_plane_index(pitch, stride, basis, shot);
    }
    assert(0 <= shot * stride) by (nonlinear_arith)
        requires
            0 <= shot,
            0 <= stride,
    ;
    assert(0 <= basis * pitch) by (nonlinear_arith)
        requires
            0 <= basis,
            0 <= pitch,
    ;
}

/// Different places hold different amplitudes.
pub proof fn lemma_lane_unique(
    shot_major: bool,
    stride: int,
    pitch: int,
    s: int,
    b: int,
    t: int,
    c: int,
)
    requires
        0 <= s < pitch,
        0 <= t < pitch,
        0 <= b < stride,
        0 <= c < stride,
        lane_index(shot_major, stride, pitch, s, b) == lane_index(shot_major, stride, pitch, t, c),
    ensures
        s == t,
        b == c,
{
    if shot_major {
        crate::planes::lemma_plane_unique(stride, s, b, t, c);
    } else {
        crate::planes::lemma_plane_unique(pitch, b, s, c, t);
    }
}

/// Writes the first basis state into every live shot.
pub fn initialize_lanes<A: Copy>(
    amplitudes: &mut Vec<A>,
    shot_major: bool,
    stride: usize,
    pitch: usize,
    dim: usize,
    shots: usize,
    zero: A,
    one: A,
)
    requires
        old(amplitudes)@.len() == stride * pitch,
        dim <= stride,
        shots <= pitch,
    ensures
        final(amplitudes)@.len() == old(amplitudes)@.len(),
        starts_at_zero(
            final(amplitudes)@,
            shot_major,
            stride as int,
            pitch as int,
            dim as int,
            shots as int,
            zero,
            one,
        ),
{
    let mut shot: usize = 0;
    let ghost st = stride as int;
    let ghost pi = pitch as int;
    let len: usize = amplitudes.len();
    while shot < shots
        invariant
            shot <= shots,
            shots <= pitch,
            dim <= stride,
            st == stride,
            pi == pitch,
            len == amplitudes@.len(),
            amplitudes@.len() == st * pi,
            forall|s: int, b: int|
                0 <= s < shot && 0 <= b < dim ==> #[trigger] amplitudes@[lane_index(
                    shot_major,
                    st,
                    pi,
                    s,
                    b,
                )] == if b == 0 {
                    one
                } else {
                    zero
                },
        decreases shots - shot,
    {
        let mut basis: usize = 0;
        while basis < dim
            invariant
                basis <= dim,
                shot < shots,
                shots <= pitch,
                dim <= stride,
                st == stride,
                pi == pitch,
                len == amplitudes@.len(),
                amplitudes@.len() == st * pi,
                forall|s: int, b: int|
                    (0 <= s < shot && 0 <= b < dim) || (s == shot && 0 <= b < basis)
                        ==> #[trigger] amplitudes@[lane_index(shot_major, st, pi, s, b)] == if b == 0 {
                        one
                    } else {
                        zero
                    },
            decreases dim - basis,
        {
            proof {
                lemma_lane_index(shot_major, st, pi, shot as int, basis as int);
            }
            let at: usize = if shot_major {
                shot * stride + basis
            } else {
                basis * pitch + shot
            };
            let ghost before = amplitudes@;
            amplitudes[at] = if basis == 0 {
                one
            } else {
                zero
            };
            proof {
                assert forall|s: int, b: int|
                    (0 <= s < shot && 0 <= b < dim) || (s == shot && 0 <= b < basis + 1) implies
                    #[trigger] amplitudes@[lane_index(shot_major, st, pi, s, b)] == if b == 0 {
                    one
                } else {
                    zero
                } by {
                    if s == shot && b == basis {
                    } else {
                        if lane_index(shot_major, st, pi, s, b) == at {
                            lemma_lane_unique(
                                shot_major,
                                st,
                                pi,
                                s,
                                b,
                                shot as int,
                                basis as int,
                            );
                        }
                        lemma_lane_index(shot_major, st, pi, s, b);
                        assert(before[lane_index(shot_major, st, pi, s, b)] == if b == 0 {
                            one
                        } else {
                            zero
                        });
                    }
                }
            }
            basis += 1;
        }
        shot += 1;
    }
}

/// The components as a reset leaves them: the initial ones hold the first basis
/// state of one qubit, the others are switched off.
pub open spec fn components_fresh<A>(
    components: Seq<BatchActiveComponent<A>>,
    plan: ActiveComponentPlan,
    shot_major: bool,
    pitch: int,
    shots: int,
    zero: A,
    one: A,
) -> bool {
    &&& components.len() == plan.component_max_k@.len()
    &&& forall|j: int|
        0 <= j < components.len() ==> {
            let c = #[trigger] components[j];
            &&& component_wf(c, pitch)
            &&& c.stride == dimension(plan.component_max_k@[j] as int)
            &&& c.active == (j < plan.initial_components)
            &&& c.k == if j < plan.initial_components {
                1int
            } else {
                0
            }
            &&& j < plan.initial_components ==> c.stride >= 2 && starts_at_zero(
                c.amplitudes@,
                shot_major,
                c.stride as int,
                pitch,
                2,
                shots,
                zero,
                one,
            )
        }
}

/// Allocates the components of a plan.
fn allocate_components<A: Copy>(plan: &ActiveComponentPlan, pitch: usize, zero: A) -> (r: Vec<
    BatchActiveComponent<A>,
>)
    requires
        pitch >= 1,
        forall|j: int|
            0 <= j < plan.component_max_k@.len() ==> dimension(
                #[trigger] plan.component_max_k@[j] as int,
            ) * pitch <= usize::MAX,
    ensures
        r@.len() == plan.component_max_k@.len(),
        forall|j: int|
            0 <= j < r@.len() ==> {
                let c = #[trigger] r@[j];
                &&& component_wf(c, pitch as int)
                &&& !c.active
                &&& c.k == 0
                &&& c.stride == dimension(plan.component_max_k@[j] as int)
            },
{
    let mut out: Vec<BatchActiveComponent<A>> = Vec::new();
    let mut j: usize = 0;
    while j < plan.component_max_k.len()
        invariant
            j <= plan.component_max_k@.len(),
            pitch >= 1,
            forall|j: int|
                0 <= j < plan.component_max_k@.len() ==> dimension(
                    #[trigger] plan.component_max_k@[j] as int,
                ) * pitch <= usize::MAX,
            out@.len() == j,
            forall|i: int|
                0 <= i < out@.len() ==> {
                    let c = #[trigger] out@[i];
                    &&& component_wf(c, pitch as int)
                    &&& !c.active
                    &&& c.k == 0
                    &&& c.stride == dimension(plan.component_max_k@[i] as int)
                },
        decreases plan.component_max_k@.len() - j,
    {
        let width: usize = plan.component_max_k[j];
        proof {
            lemma_dimension_positive(width as int);
            assert(dimension(plan.component_max_k@[j as int] as int) * pitch <= usize::MAX);
            assert(dimension(width as int) <= usize::MAX) by (nonlinear_arith)
                requires
                    dimension(width as int) * pitch <= usize::MAX,
                    pitch >= 1,
                    dimension(width as int) >= 1,
            ;
        }
        let stride: usize = match active_length(width) {
            Ok(dim) => dim,
            Err(_) => {
                assert(false);
                0
            },
        };
        let storage: usize = stride * pitch;
        let amplitudes: Vec<A> = filled_list(storage, zero);
        out.push(BatchActiveComponent { k: 0, active: false, stride, amplitudes });
        j += 1;
    }
    out
}

impl<A: Copy> BatchFactoredExecutorState<A> {
    /// The counts of a program.
    pub open spec fn counts_match(&self, program: &FactoredInstructionProgram) -> bool {
        &&& self.n == program.n
        &&& self.nsymbols == program.nsymbols
        &&& self.nrecords == program.nrecords
        &&& self.ndetectors == program.ndetectors
        &&& self.nexpvals == program.nexpvals
        &&& self.max_k == program.max_k
    }

    /// Everything is as at the start of a block of `shots` shots: nothing is
    /// assigned, recorded or detected, and the active state is the first basis
    /// state.
    pub open spec fn rewound(
        &self,
        program: &FactoredInstructionProgram,
        shots: int,
        zero: A,
        one: A,
    ) -> bool {
        &&& self.wf()
        &&& self.counts_match(program)
        &&& self.k == program.initial_k
        &&& self.active_shots == shots
        &&& forall|c: i32| c > 0 ==> !#[trigger] self.assigned(c)
        &&& forall|r: int, shot: int|
            0 < r <= self.nrecords ==> !#[trigger] self.record_bit(r, shot)
        &&& self.store_detector_records ==> forall|d: int, shot: int|
            0 < d <= self.ndetectors ==> !#[trigger] self.detector_bit(d, shot)
        &&& forall|shot: int| !#[trigger] row_bit(self.detector_any_words@, shot)
        &&& forall|i: int| 0 <= i < self.exp_values@.len() ==> #[trigger] self.exp_values@[i] == 0
        &&& self.active_components_enabled == program.use_active_components
        &&& if program.use_active_components {
            components_fresh(
                self.active_components@,
                program.active_component_plan->0,
                self.dense_shot_major_active,
                self.active_pitch as int,
                shots,
                zero,
                one,
            )
        } else {
            &&& self.active_components@.len() == 0
            &&& self.active_stride == dimension(program.max_k as int)
            &&& starts_at_zero(
                self.active@,
                self.dense_shot_major_active,
                self.active_stride as int,
                self.active_pitch as int,
                dimension(program.initial_k as int),
                shots,
                zero,
                one,
            )
        }
    }

    /// An executor without storage.
    fn blank(batches: usize, seed: u64) -> (r: Self)
        ensures
            r.batches == batches,
            r.rng_state == seed,
            !r.store_detector_records,
            !r.dense_shot_major_active,
    {
        BatchFactoredExecutorState {
            n: 0,
            k: 0,
            ndormant: 0,
            batches,
            active_shots: 0,
            active_pitch: 0,
            active_stride: 0,
            nsymbols: 0,
            nrecords: 0,
            ndetectors: 0,
            nexpvals: 0,
            max_k: 0,
            batch_words: 0,
            store_detector_records: false,
            dense_shot_major_active: false,
            active: Vec::new(),
            value_words: Vec::new(),
            assigned_words: Vec::new(),
            measurement_words: Vec::new(),
            detector_words: Vec::new(),
            detector_any_words: Vec::new(),
            exp_values: Vec::new(),
            active_components_enabled: false,
            active_components: Vec::new(),
            rng_state: seed,
        }
    }

    /// An executor for `batches` shots at a time; zero selects
    /// [`default_batch_count`].
    pub fn new(
        program: &FactoredInstructionProgram,
        batches: usize,
        seed: u64,
        zero: A,
        one: A,
    ) -> (r: Result<Self>)
        requires
            batches > 0 ==> program_fits(program, batches as int),
            batches == 0 ==> forall|count: int|
                1 <= count <= 2048 ==> #[trigger] program_fits(program, count),
            initial_components_exist(program),
        ensures
            match r {
                Ok(state) => {
                    &&& batches > 0 ==> state.batches == batches
                    &&& batches == 0 ==> state.batches == default_batches(program.max_k as int)
                    &&& !state.dense_shot_major_active
                    &&& !state.store_detector_records
                    &&& state.rng_state == seed
                    &&& reset_refusal(program) is None
                    &&& state.rewound(program, state.batches as int, zero, one)
                },
                Err(e) => (batches == 0 && dimension(program.max_k as int) > usize::MAX && e@
                    == "active state width is out of range"@) || reset_refusal(program) == Some(e@),
            },
    {
        let count: usize = if batches > 0 {
            batches
        } else {
            match default_batch_count(program.max_k) {
                Ok(count) => count,
                Err(e) => {
                    return Err(e);
                },
            }
        };
        assert(program_fits(program, count as int));
        let mut state: Self = BatchFactoredExecutorState::blank(count, seed);
        match reset_batch_executor(&mut state, program, count, zero, one) {
            Ok(_) => Ok(state),
            Err(e) => Err(e),
        }
    }
}

/// Why an executor cannot be rewound for a program, if it cannot.
pub open spec fn reset_refusal(program: &FactoredInstructionProgram) -> Option<Seq<char>> {
    if component_refusal(program) is Some {
        component_refusal(program)
    } else if !program.use_active_components && dimension(program.max_k as int) > usize::MAX {
        Some("active state width is out of range"@)
    } else {
        None
    }
}

/// Sets the components up for a block.
fn reset_batch_components<A: Copy>(
    state: &mut BatchFactoredExecutorState<A>,
    program: &FactoredInstructionProgram,
    zero: A,
    one: A,
) -> (r: Result<()>)
    requires
        program_fits(program, old(state).batches as int),
        old(state).active_pitch == padded_pitch(old(state).batches as int),
        old(state).active_pitch >= old(state).batches,
        old(state).active_pitch >= 1,
        old(state).active_shots <= old(state).batches,
        initial_components_exist(program),
    ensures
        *final(state) == (BatchFactoredExecutorState {
            active_components_enabled: final(state).active_components_enabled,
            active_components: final(state).active_components,
            active: final(state).active,
            ..*old(state)
        }),
        match r {
            Ok(_) => {
                &&& component_refusal(program) is None
                &&& final(state).active_components_enabled == program.use_active_components
                &&& program.use_active_components ==> components_fresh(
                    final(state).active_components@,
                    program.active_component_plan->0,
                    final(state).dense_shot_major_active,
                    final(state).active_pitch as int,
                    final(state).active_shots as int,
                    zero,
                    one,
                )
            },
            Err(e) => component_refusal(program) == Some(e@),
        },
{
    if !program.use_active_components {
        state.active_components_enabled = false;
        return Ok(());
    }
    match &program.active_component_plan {
        None => Err(TicitError::new("program does not contain an executable active component plan")),
        Some(plan) => {
            if plan.instruction_steps.len() != program.instructions.len() {
                return Err(
                    TicitError::new("program does not contain an executable active component plan"),
                );
            }
            if plan.component_count != plan.component_max_k.len() {
                return Err(
                    TicitError::new("active component plan has inconsistent component capacities"),
                );
            }
            if plan.initial_components != program.initial_k {
                return Err(
                    TicitError::new("active component plan has the wrong initial component count"),
                );
            }
            let pitch: usize = state.active_pitch;
            let shots: usize = state.active_shots;
            let shot_major: bool = state.dense_shot_major_active;
            let mut components: Vec<BatchActiveComponent<A>> = allocate_components(
                plan,
                pitch,
                zero,
            );
            let mut j: usize = 0;
            while j < plan.initial_components
                invariant
                    j <= plan.initial_components,
                    plan.initial_components <= plan.component_max_k@.len(),
                    program.use_active_components,
                    plan_matches(program),
                    program.active_component_plan == Some(*plan),
                    plan.component_count == plan.component_max_k@.len(),
                    plan.initial_components == program.initial_k,
                    shots <= pitch,
                    components@.len() == plan.component_max_k@.len(),
                    *state == *old(state),
                    forall|i: int|
                        j <= i < components@.len() ==> {
                            let c = #[trigger] components@[i];
                            &&& component_wf(c, pitch as int)
                            &&& !c.active
                            &&& c.k == 0
                            &&& c.stride == dimension(plan.component_max_k@[i] as int)
                        },
                    forall|i: int|
                        0 <= i < j ==> {
                            let c = #[trigger] components@[i];
                            &&& component_wf(c, pitch as int)
                            &&& c.active
                            &&& c.k == 1
                            &&& c.stride >= 2
                            &&& c.stride == dimension(plan.component_max_k@[i] as int)
                            &&& plan.component_max_k@[i] != 0
                            &&& starts_at_zero(
                                c.amplitudes@,
                                shot_major,
                                c.stride as int,
                                pitch as int,
                                2,
                                shots as int,
                                zero,
                                one,
                            )
                        },
                decreases plan.initial_components - j,
            {
                let ghost c0 = components@[j as int];
                assert(component_wf(c0, pitch as int));
                let stride: usize = components[j].stride;
                if stride < 2 {
                    proof {
                        if plan.component_max_k@[j as int] > 0 {
                            lemma_dimension_positive(plan.component_max_k@[j as int] - 1);
                        }
                        assert(plan.component_max_k@[j as int] == 0);
                    }
                    return Err(TicitError::new("initial active component has insufficient storage"));
                }
                proof {
                    if plan.component_max_k@[j as int] == 0 {
                        assert(dimension(0) == 1);
                    }
                    reveal_with_fuel(dimension, 2);
                }
                components[j].k = 1;
                components[j].active = true;
                initialize_lanes(
                    &mut components[j].amplitudes,
                    shot_major,
                    stride,
                    pitch,
                    2,
                    shots,
                    zero,
                    one,
                );
                j += 1;
            }
            state.active_components = components;
            state.active_components_enabled = true;
            // The dense buffer is dead weight in component mode.
            state.active = Vec::new();
            proof {
                assert(component_refusal(program) is None) by {
                    assert forall|i: int| 0 <= i < plan.initial_components implies
                        #[trigger] plan.component_max_k@[i] != 0 by {
                        assert(components@[i].active);
                    }
                }
            }
            Ok(())
        },
    }
}

/// Rewinds the executor for a block of `shots` live shots.
pub fn reset_batch_executor<A: Copy>(
    state: &mut BatchFactoredExecutorState<A>,
    program: &FactoredInstructionProgram,
    shots: usize,
    zero: A,
    one: A,
) -> (r: Result<()>)
    requires
        program_fits(program, old(state).batches as int),
        initial_components_exist(program),
    ensures
        final(state).batches == old(state).batches,
        final(state).store_detector_records == old(state).store_detector_records,
        final(state).dense_shot_major_active == old(state).dense_shot_major_active,
        final(state).rng_state == old(state).rng_state,
        match r {
            Ok(_) => {
                &&& shots <= old(state).batches
                &&& reset_refusal(program) is None
                &&& final(state).rewound(program, shots as int, zero, one)
            },
            Err(e) => (shots > old(state).batches && *final(state) == *old(state) && e@
                == "active batch shot count is out of range"@) || (shots <= old(state).batches
                && reset_refusal(program) == Some(e@)),
        },
{
    if shots > state.batches {
        return Err(TicitError::new("active batch shot count is out of range"));
    }
    state.n = program.n;
    state.k = program.initial_k;
    state.ndormant = program.n - program.initial_k;
    state.active_shots = shots;
    state.active_pitch = padded_batch_active_pitch(state.batches);
    state.nsymbols = program.nsymbols;
    state.nrecords = program.nrecords;
    state.ndetectors = program.ndetectors;
    state.nexpvals = program.nexpvals;
    state.max_k = program.max_k;
    state.batch_words = batch_word_count(state.batches);
    match reset_batch_components(state, program, zero, one) {
        Ok(_) => {},
        Err(e) => {
            return Err(e);
        },
    }
    if !state.active_components_enabled {
        state.active_components = Vec::new();
        let dim: usize = match active_length(program.max_k) {
            Ok(dim) => dim,
            Err(e) => {
                return Err(e);
            },
        };
        proof {
            lemma_dimension_grows(program.initial_k as int, program.max_k as int);
            lemma_dimension_positive(program.max_k as int);
            assert(0 <= dim * state.active_pitch) by (nonlinear_arith);
        }
        let size: usize = dim * state.active_pitch;
        state.active_stride = dim;
        resize_list(&mut state.active, size, zero);
        let start: usize = match active_length(program.initial_k) {
            Ok(start) => start,
            Err(e) => {
                assert(false);
                return Err(e);
            },
        };
        let shot_major: bool = state.dense_shot_major_active;
        let pitch: usize = state.active_pitch;
        initialize_lanes(&mut state.active, shot_major, dim, pitch, start, shots, zero, one);
    }
    let words: usize = state.batch_words;
    proof {
        let w = words as int;
        assert(0 <= program.nsymbols * w && 0 <= program.nrecords * w && 0 <= program.ndetectors * w)
            by (nonlinear_arith)
            requires
                0 <= w,
        ;
        assert(0 <= program.nexpvals * state.batches) by (nonlinear_arith);
    }
    resize_list(&mut state.value_words, program.nsymbols * words, 0u64);
    state.assigned_words = filled_list(symbol_word_count(program.nsymbols), 0u64);
    state.measurement_words = filled_list(program.nrecords * words, 0u64);
    if state.store_detector_records {
        state.detector_words = filled_list(program.ndetectors * words, 0u64);
    }
    state.detector_any_words = filled_list(words, 0u64);
    state.exp_values = filled_list(program.nexpvals * state.batches, 0u64);
    proof {
        assert forall|c: i32| c > 0 implies !#[trigger] state.assigned(c) by {
            lemma_clear_row(state.assigned_words@, symbol_bit(c as int));
        }
        assert forall|c: i32| #[trigger] state.assigned(c) && c > 0 implies c <= state.nsymbols by {}
        assert forall|r: int, shot: int| 0 < r <= state.nrecords implies !#[trigger] state.record_bit(
            r,
            shot,
        ) by {
            lemma_clear_plane(state.measurement_words@, words as int, state.nrecords as int, r - 1, shot);
        }
        assert(records_end(
            state.measurement_words@,
            words as int,
            state.nrecords as int,
            state.batches as int,
        )) by {
            reveal(records_end);
            assert forall|q: int, i: int|
                0 <= q < state.nrecords && state.batches <= i implies !#[trigger] plane_bit(
                state.measurement_words@,
                words as int,
                q,
                i,
            ) by {
                lemma_clear_plane(state.measurement_words@, words as int, state.nrecords as int, q, i);
            }
        }
        if state.store_detector_records {
            assert forall|d: int, shot: int|
                0 < d <= state.ndetectors implies !#[trigger] state.detector_bit(d, shot) by {
                lemma_clear_plane(
                    state.detector_words@,
                    words as int,
                    state.ndetectors as int,
                    d - 1,
                    shot,
                );
            }
        }
        assert forall|shot: int| !#[trigger] row_bit(state.detector_any_words@, shot) by {
            lemma_clear_row(state.detector_any_words@, shot);
        }
    }
    Ok(())
}

pub proof fn lemma_clear_row(words: Seq<u64>, i: int)
    requires
        forall|k: int| 0 <= k < words.len() ==> #[trigger] words[k] == 0,
    ensures
        !row_bit(words, i),
{
    if 0 <= i < 64 * words.len() {
        assert(words[i / 64] == 0);
    }
}

pub proof fn lemma_clear_plane(words: Seq<u64>, stride: int, planes: int, plane: int, i: int)
    requires
        forall|k: int| 0 <= k < words.len() ==> #[trigger] words[k] == 0,
        0 <= plane < planes,
        words.len() == planes * stride,
    ensures
        !plane_bit(words, stride, plane, i),
{
    if 0 <= i < 64 * stride {
        lemma_plane_index(stride, planes, plane, i / 64);
        assert(words[plane * stride + i / 64] == 0);
    }
}

/// The records of two executors of one size that agree on every shot there is room
/// for are held in the same words.
pub proof fn law_records_are_their_shots<A: Copy>(
    a: &BatchFactoredExecutorState<A>,
    b: &BatchFactoredExecutorState<A>,
)
    requires
        a.planes_wf(),
        b.planes_wf(),
        a.batches == b.batches,
        a.nrecords == b.nrecords,
        forall|q: int, s: int|
            0 < q <= a.nrecords && 0 <= s < a.batches ==> #[trigger] a.record_bit(q, s) == b.record_bit(
                q,
                s,
            ),
    ensures
        a.measurement_words@ == b.measurement_words@,
{
    reveal(records_end);
    let stride = a.batch_words as int;
    let n = a.nrecords as int;
    assert forall|w: int| 0 <= w < a.measurement_words@.len() implies a.measurement_words@[w]
        == b.measurement_words@[w] by {
        assert(stride > 0) by (nonlinear_arith)
            requires
                0 <= w < n * stride,
                0 <= stride,
        ;
        let q = w / stride;
        let word = w % stride;
        assert(0 <= q < n && 0 <= word < stride && w == q * stride + word) by (nonlinear_arith)
            requires
                0 <= w < n * stride,
                0 < stride,
                q == w / stride,
                word == w % stride,
        ;
        let x = a.measurement_words@[w];
        let y = b.measurement_words@[w];
        assert forall|i: int| 0 <= i < 64 implies #[trigger] word_bit(x, i) == word_bit(y, i) by {
            let at = 64 * word + i;
            assert(at / 64 == word && at % 64 == i);
            assert(plane_bit(a.measurement_words@, stride, q, at) == word_bit(x, i));
            assert(plane_bit(b.measurement_words@, stride, q, at) == word_bit(y, i));
            if at < a.batches {
                assert(a.record_bit(q + 1, at) == b.record_bit(q + 1, at));
            }
        }
        lemma_word_ext(x, y);
    }
    assert(a.measurement_words@ =~= b.measurement_words@);
}

} // verus!
