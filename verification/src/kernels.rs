//! The arithmetic of the active state.
//!
//! The executors move amplitudes about and decide which of them are combined, and by
//! which power of `i`; the sums, products and draws on the amplitudes of one shot are
//! the caller's arithmetic, given as an implementation of [`ActiveKernels`]. The
//! specifications below name the results of such an implementation.
use vstd::prelude::*;
use crate::amplitudes::{joints, mixes, Joint, Mix};
use crate::program::{MeasurementKernel, RotationKernel};

verus! {

/// Arithmetic on the active state of one shot. A lane holds the amplitudes of the
/// basis states in order.
pub trait ActiveKernels<A>: Sized {
    /// The amplitude zero.
    fn zero(&self) -> A;

    /// The amplitude one.
    fn one(&self) -> A;

    /// The product of two amplitudes.
    fn product(&self, left: A, right: A) -> A;

    /// Rotates about a Pauli, whose image of the lane holds `mixes[b]` at basis state `b`.
    fn rotate(&self, kernel_angle: u64, sign: bool, mixes: &Vec<Mix>, lane: Vec<A>) -> Vec<A>;

    /// Takes a dormant qubit in: the new qubit is the highest of the result.
    fn promote(&self, kernel_angle: u64, sign: bool, lane: Vec<A>) -> Vec<A>;

    /// Draws the branch of a measurement and projects onto it. The two branches keep
    /// what `plus` and `minus` say. Gives the next state of the generator, and nothing
    /// more where the drawn branch cannot be.
    fn measure(&self, plus: &Vec<Joint>, minus: &Vec<Joint>, lane: Vec<A>, rng: u64) -> (
        u64,
        Option<(bool, Vec<A>)>,
    );

    /// The expectation of a Pauli whose branch of the eigenvalue -1 keeps `minus`,
    /// negated where `outcome` is set, as the bits of a double.
    fn expect(&self, minus: &Vec<Joint>, outcome: bool, lane: Vec<A>) -> u64;

    /// The next state of the generator, and 64 random bits.
    fn random(&self, rng: u64) -> (u64, u64);
}

/// What [`ActiveKernels::zero`] gives.
pub open spec fn zero_of<A, K: ActiveKernels<A>>(k: &K) -> A {
    choose|a: A| call_ensures(K::zero, (k,), a)
}

/// What [`ActiveKernels::one`] gives.
pub open spec fn one_of<A, K: ActiveKernels<A>>(k: &K) -> A {
    choose|a: A| call_ensures(K::one, (k,), a)
}

/// What [`ActiveKernels::product`] gives.
pub open spec fn product_of<A, K: ActiveKernels<A>>(k: &K, left: A, right: A) -> A {
    choose|a: A| call_ensures(K::product, (k, left, right), a)
}

/// What [`ActiveKernels::rotate`] gives for a lane.
pub open spec fn rotated_by<A, K: ActiveKernels<A>>(
    k: &K,
    kernel_angle: u64,
    sign: bool,
    mixes: Seq<Mix>,
    lane: Seq<A>,
) -> Seq<A> {
    let p = choose|p: (Vec<Mix>, Vec<A>, Vec<A>)|
        p.0@ == mixes && p.1@ == lane && #[trigger] call_ensures(
            K::rotate,
            (k, kernel_angle, sign, &p.0, p.1),
            p.2,
        );
    p.2@
}

/// A lane rotated about the Pauli of a kernel.
pub open spec fn rotated<A, K: ActiveKernels<A>>(
    k: &K,
    kernel: RotationKernel,
    sign: bool,
    lane: Seq<A>,
) -> Seq<A> {
    rotated_by(k, kernel.kernel_angle, sign, mixes(kernel.action, lane.len() as int), lane)
}

/// What [`ActiveKernels::promote`] gives for a lane.
pub open spec fn promoted<A, K: ActiveKernels<A>>(
    k: &K,
    kernel_angle: u64,
    sign: bool,
    lane: Seq<A>,
) -> Seq<A> {
    let p = choose|p: (Vec<A>, Vec<A>)|
        p.0@ == lane && #[trigger] call_ensures(K::promote, (k, kernel_angle, sign, p.0), p.1);
    p.1@
}

/// The drawn branch and the projected lane.
pub open spec fn branch_view<A>(drawn: Option<(bool, Vec<A>)>) -> Option<(bool, Seq<A>)> {
    match drawn {
        Some((branch, lane)) => Some((branch, lane@)),
        None => None,
    }
}

/// What [`ActiveKernels::measure`] gives for a lane.
pub open spec fn measured_by<A, K: ActiveKernels<A>>(
    k: &K,
    plus: Seq<Joint>,
    minus: Seq<Joint>,
    lane: Seq<A>,
    rng: u64,
) -> (u64, Option<(bool, Seq<A>)>) {
    let p = choose|p: (Vec<Joint>, Vec<Joint>, Vec<A>, (u64, Option<(bool, Vec<A>)>))|
        p.0@ == plus && p.1@ == minus && p.2@ == lane && #[trigger] call_ensures(
            K::measure,
            (k, &p.0, &p.1, p.2, rng),
            p.3,
        );
    (p.3.0, branch_view(p.3.1))
}

/// The measurement of a kernel's Pauli on a lane.
pub open spec fn measured<A, K: ActiveKernels<A>>(
    k: &K,
    kernel: MeasurementKernel,
    lane: Seq<A>,
    rng: u64,
) -> (u64, Option<(bool, Seq<A>)>) {
    let half = lane.len() as int / 2;
    measured_by(k, joints(kernel, false, half), joints(kernel, true, half), lane, rng)
}

/// What [`ActiveKernels::expect`] gives for a lane.
pub open spec fn expectation_by<A, K: ActiveKernels<A>>(
    k: &K,
    minus: Seq<Joint>,
    outcome: bool,
    lane: Seq<A>,
) -> u64 {
    let p = choose|p: (Vec<Joint>, Vec<A>, u64)|
        p.0@ == minus && p.1@ == lane && #[trigger] call_ensures(
            K::expect,
            (k, &p.0, outcome, p.1),
            p.2,
        );
    p.2
}

/// The expectation of a kernel's Pauli on a lane.
pub open spec fn expectation<A, K: ActiveKernels<A>>(
    k: &K,
    kernel: MeasurementKernel,
    outcome: bool,
    lane: Seq<A>,
) -> u64 {
    expectation_by(k, joints(kernel, true, lane.len() as int / 2), outcome, lane)
}

/// What [`ActiveKernels::random`] gives.
pub open spec fn random_of<A, K: ActiveKernels<A>>(k: &K, rng: u64) -> (u64, u64) {
    choose|o: (u64, u64)| call_ensures(K::random, (k, rng), o)
}

/// Every result depends on the arguments alone, and lanes keep their sizes: a
/// rotation keeps the length, a promotion doubles it and a measurement halves it.
pub open spec fn lawful<A, K: ActiveKernels<A>>(k: &K) -> bool {
    &&& forall|a: A| #[trigger] call_ensures(K::zero, (k,), a) ==> a == zero_of::<A, K>(k)
    &&& forall|a: A| #[trigger] call_ensures(K::one, (k,), a) ==> a == one_of::<A, K>(k)
    &&& forall|l: A, r: A, a: A| #[trigger]
        call_ensures(K::product, (k, l, r), a) ==> a == product_of(k, l, r)
    &&& forall|angle: u64, sign: bool, m: Vec<Mix>, v: Vec<A>, o: Vec<A>| #[trigger]
        call_ensures(K::rotate, (k, angle, sign, &m, v), o) ==> o@ == rotated_by(
            k,
            angle,
            sign,
            m@,
            v@,
        ) && o@.len() == v@.len()
    &&& forall|angle: u64, sign: bool, v: Vec<A>, o: Vec<A>| #[trigger]
        call_ensures(K::promote, (k, angle, sign, v), o) ==> o@ == promoted(k, angle, sign, v@)
            && o@.len() == 2 * v@.len()
    &&& forall|p: Vec<Joint>, m: Vec<Joint>, v: Vec<A>, rng: u64, o: (u64, Option<(bool, Vec<A>)>)|
     #[trigger]
        call_ensures(K::measure, (k, &p, &m, v, rng), o) ==> {
            &&& (o.0, branch_view(o.1)) == measured_by(k, p@, m@, v@, rng)
            &&& o.1 is Some ==> 2 * (o.1->0).1@.len() == v@.len()
        }
    &&& forall|m: Vec<Joint>, outcome: bool, v: Vec<A>, o: u64| #[trigger]
        call_ensures(K::expect, (k, &m, outcome, v), o) ==> o == expectation_by(
            k,
            m@,
            outcome,
            v@,
        )
    &&& forall|rng: u64, o: (u64, u64)| #[trigger]
        call_ensures(K::random, (k, rng), o) ==> o == random_of::<A, K>(k, rng)
}

} // verus!
