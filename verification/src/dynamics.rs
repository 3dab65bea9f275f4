//! The physics that the solver drives, and the ledger of linear momentum that it keeps while it
//! does so.

use crate::multibody::{Multibody, MultibodyIndex};
use vstd::prelude::*;

verus! {

/// The rigid bodies of a simulation together with the kinematics and dynamics of its multibodies.
///
/// The solver hands a value of this type from step to step. It says in which order the steps
/// come, and what goes into each of them. What a step does is up to the implementation: the
/// contracts of the solver speak of it through `call_ensures`, and hold whatever it is.
///
/// The generalized velocities and accelerations are not part of it. Each step is given the
/// multibody, which holds them, and a step that changes them returns the new ones.
pub trait MultibodyDynamics: Sized {
    /// A real number.
    type Real: Copy;

    /// A force.
    type Force;

    /// A linear momentum, or an impulse.
    type Momentum;

    /// What the solver holds for one rigid body.
    type SolverBody: Copy;

    /// The velocity, in the solver, of one rigid body.
    type SolverVel: Copy;

    /// The gyroscopic parameters of one rigid body.
    type GyroParams: Copy;

    /// The number zero.
    fn zero() -> Self::Real;

    /// The product of two numbers.
    fn product(a: Self::Real, b: Self::Real) -> Self::Real;

    /// The sum of two momenta.
    fn momentum_sum(a: Self::Momentum, b: Self::Momentum) -> Self::Momentum;

    /// What is left of a momentum when another one is taken away.
    fn momentum_difference(a: Self::Momentum, b: Self::Momentum) -> Self::Momentum;

    /// The impulse of a force that acts for some time.
    fn impulse_of(force: Self::Force, dt: Self::Real) -> Self::Momentum;

    /// The solver body of a slot that no rigid body was copied to yet.
    fn empty_solver_body() -> Self::SolverBody;

    /// The velocity of a body at rest.
    fn zero_solver_vel() -> Self::SolverVel;

    /// Gyroscopic parameters that have no effect.
    fn default_gyro_params() -> Self::GyroParams;

    /// Derives the velocities of the links from the generalized velocities.
    fn update_velocities(self, index: MultibodyIndex, multibody: &Multibody<Self::Real>) -> Self;

    /// Recomputes the mass matrix at the current configuration.
    fn update_mass_matrix(
        self,
        index: MultibodyIndex,
        multibody: &Multibody<Self::Real>,
        dt: Self::Real,
    ) -> Self;

    /// Computes the generalized accelerations.
    fn update_acceleration(
        self,
        index: MultibodyIndex,
        multibody: &Multibody<Self::Real>,
        dt: Self::Real,
    ) -> (Self, Vec<Self::Real>);

    /// The linear momentum of the multibody at its generalized velocities.
    fn linear_momentum(
        &self,
        index: MultibodyIndex,
        multibody: &Multibody<Self::Real>,
    ) -> Self::Momentum;

    /// The linear momentum that a change of the generalized velocities carries, through the
    /// momentum map of the current configuration.
    fn map_momentum(
        &self,
        index: MultibodyIndex,
        multibody: &Multibody<Self::Real>,
        increment: &Vec<Self::Real>,
    ) -> Self::Momentum;

    /// The sum of the external forces on the links.
    fn total_external_force(
        &self,
        index: MultibodyIndex,
        multibody: &Multibody<Self::Real>,
    ) -> Self::Force;

    /// Moves the generalized positions along the generalized velocities.
    fn integrate(
        self,
        index: MultibodyIndex,
        multibody: &Multibody<Self::Real>,
        dt: Self::Real,
    ) -> Self;

    /// Recomputes the poses of the links. Reads the pose of the root from its rigid body if asked
    /// to.
    fn forward_kinematics(
        self,
        index: MultibodyIndex,
        multibody: &Multibody<Self::Real>,
        read_root_pose: bool,
    ) -> Self;

    /// Writes the poses of the links to their rigid bodies, and whatever else is asked for.
    fn update_rigid_bodies_internal(
        self,
        index: MultibodyIndex,
        multibody: &Multibody<Self::Real>,
        update_mass_properties: bool,
        update_next_positions_only: bool,
        change_tracking: bool,
    ) -> Self;

    /// Corrects the velocity of the base so that the linear momentum meets a target. Returns the
    /// corrected generalized velocities, or nothing if there was nothing to correct.
    fn reconcile_base_linear_momentum(
        self,
        index: MultibodyIndex,
        multibody: &Multibody<Self::Real>,
        target: Self::Momentum,
    ) -> (Self, Option<Vec<Self::Real>>);
}

/// Whether one of the steps of the dynamics, on some state of a multibody, leads from one world to
/// another.
pub open spec fn steps_to<W: MultibodyDynamics>(
    index: MultibodyIndex,
    before: W,
    after: W,
) -> bool {
    ||| exists|multibody: Multibody<W::Real>| #[trigger]
        call_ensures(W::update_velocities, (before, index, &multibody), after)
    ||| exists|multibody: Multibody<W::Real>, dt: W::Real| #[trigger]
        call_ensures(W::update_mass_matrix, (before, index, &multibody, dt), after)
    ||| exists|multibody: Multibody<W::Real>, dt: W::Real, out: (W, Vec<W::Real>)| #[trigger]
        call_ensures(W::update_acceleration, (before, index, &multibody, dt), out)
            && after == out.0
    ||| exists|multibody: Multibody<W::Real>, dt: W::Real| #[trigger]
        call_ensures(W::integrate, (before, index, &multibody, dt), after)
    ||| exists|multibody: Multibody<W::Real>, read_root_pose: bool| #[trigger]
        call_ensures(
            W::forward_kinematics,
            (before, index, &multibody, read_root_pose),
            after,
        )
    ||| exists|
        multibody: Multibody<W::Real>,
        mass_properties: bool,
        next_positions_only: bool,
        change_tracking: bool,
    | #[trigger]
        call_ensures(
            W::update_rigid_bodies_internal,
            (before, index, &multibody, mass_properties, next_positions_only, change_tracking),
            after,
        )
    ||| exists|
        multibody: Multibody<W::Real>,
        target: W::Momentum,
        out: (W, Option<Vec<W::Real>>),
    | #[trigger]
        call_ensures(
            W::reconcile_base_linear_momentum,
            (before, index, &multibody, target),
            out,
        ) && after == out.0
}

/// Whether the generalized vectors that the dynamics return in valid worlds, for a multibody with
/// so many degrees of freedom, have one row for each of them.
pub open spec fn keeps_dimensions<W: MultibodyDynamics>(
    valid: spec_fn(W) -> bool,
    index: MultibodyIndex,
    dofs: nat,
) -> bool {
    &&& forall|
        world: W,
        multibody: Multibody<W::Real>,
        dt: W::Real,
        out: (W, Vec<W::Real>),
    |
        valid(world) && multibody.dofs() == dofs && #[trigger] call_ensures(
            W::update_acceleration,
            (world, index, &multibody, dt),
            out,
        ) ==> out.1@.len() == dofs
    &&& forall|
        world: W,
        multibody: Multibody<W::Real>,
        target: W::Momentum,
        out: (W, Option<Vec<W::Real>>),
    |
        valid(world) && multibody.dofs() == dofs && #[trigger] call_ensures(
            W::reconcile_base_linear_momentum,
            (world, index, &multibody, target),
            out,
        ) ==> (out.1 matches Some(corrected) ==> corrected@.len() == dofs)
}

/// Whether `target` is `momentum - mapped + force * dt`.
pub open spec fn balances<W: MultibodyDynamics>(
    momentum: W::Momentum,
    mapped: W::Momentum,
    force: W::Force,
    dt: W::Real,
    target: W::Momentum,
) -> bool {
    exists|remaining: W::Momentum, impulse: W::Momentum|
        {
            &&& #[trigger] call_ensures(W::momentum_difference, (momentum, mapped), remaining)
            &&& #[trigger] call_ensures(W::impulse_of, (force, dt), impulse)
            &&& call_ensures(W::momentum_sum, (remaining, impulse), target)
        }
}

/// Whether `target` is the linear momentum that a multibody owes at the end of a substep: that of
/// its velocities, less what the increment among them carries, plus the impulse of the external
/// forces.
pub open spec fn momentum_ledger<W: MultibodyDynamics>(
    world: W,
    index: MultibodyIndex,
    multibody: Multibody<W::Real>,
    increment: Vec<W::Real>,
    dt: W::Real,
    target: W::Momentum,
) -> bool {
    exists|momentum: W::Momentum, mapped: W::Momentum, force: W::Force|
        {
            &&& #[trigger] call_ensures(W::linear_momentum, (&world, index, &multibody), momentum)
            &&& #[trigger] call_ensures(
                W::map_momentum,
                (&world, index, &multibody, &increment),
                mapped,
            )
            &&& #[trigger] call_ensures(
                W::total_external_force,
                (&world, index, &multibody),
                force,
            )
            &&& balances::<W>(momentum, mapped, force, dt, target)
        }
}

/// Computes `momentum - mapped + force * dt`.
pub fn balance<W: MultibodyDynamics>(
    momentum: W::Momentum,
    mapped: W::Momentum,
    force: W::Force,
    dt: W::Real,
) -> (target: W::Momentum)
    ensures
        balances::<W>(momentum, mapped, force, dt, target),
        exists|remaining: W::Momentum, impulse: W::Momentum|
            {
                &&& #[trigger] call_ensures(W::momentum_difference, (momentum, mapped), remaining)
                &&& #[trigger] call_ensures(W::impulse_of, (force, dt), impulse)
                &&& call_ensures(W::momentum_sum, (remaining, impulse), target)
            },
{
    let remaining = W::momentum_difference(momentum, mapped);
    let impulse = W::impulse_of(force, dt);
    W::momentum_sum(remaining, impulse)
}

/// The linear momentum that a multibody owes at the end of a substep.
///
/// Base translation is a cyclic coordinate, so over a substep the linear momentum may change only
/// by external actions. The momentum of the increment is taken away because its Coriolis part
/// only compensates the change of the momentum map, which reconciliation neutralizes, and its
/// external part is credited again as the impulse of the external forces.
pub fn momentum_target<W: MultibodyDynamics>(
    world: &W,
    index: MultibodyIndex,
    multibody: &Multibody<W::Real>,
    increment: &Vec<W::Real>,
    dt: W::Real,
) -> (target: W::Momentum)
    ensures
        momentum_ledger(*world, index, *multibody, *increment, dt, target),
        exists|
            momentum: W::Momentum,
            mapped: W::Momentum,
            force: W::Force,
            remaining: W::Momentum,
            impulse: W::Momentum,
        |
            {
                &&& #[trigger] call_ensures(
                    W::linear_momentum,
                    (world, index, multibody),
                    momentum,
                )
                &&& #[trigger] call_ensures(
                    W::map_momentum,
                    (world, index, multibody, increment),
                    mapped,
                )
                &&& #[trigger] call_ensures(
                    W::total_external_force,
                    (world, index, multibody),
                    force,
                )
                &&& #[trigger] call_ensures(W::momentum_difference, (momentum, mapped), remaining)
                &&& #[trigger] call_ensures(W::impulse_of, (force, dt), impulse)
                &&& call_ensures(W::momentum_sum, (remaining, impulse), target)
            },
{
    let momentum = world.linear_momentum(index, multibody);
    let mapped = world.map_momentum(index, multibody, increment);
    let force = world.total_external_force(index, multibody);
    balance::<W>(momentum, mapped, force, dt)
}

/// Momentum arithmetic without rounding: sums and differences are those of a commutative group,
/// and the impulse of a force depends on the force and the time alone.
pub open spec fn exact_momentum<W: MultibodyDynamics>(
    sum: spec_fn(W::Momentum, W::Momentum) -> W::Momentum,
    difference: spec_fn(W::Momentum, W::Momentum) -> W::Momentum,
    impulse: spec_fn(W::Force, W::Real) -> W::Momentum,
) -> bool {
    &&& forall|a: W::Momentum, b: W::Momentum, c: W::Momentum| #[trigger]
        call_ensures(W::momentum_sum, (a, b), c) ==> c == sum(a, b)
    &&& forall|a: W::Momentum, b: W::Momentum, c: W::Momentum| #[trigger]
        call_ensures(W::momentum_difference, (a, b), c) ==> c == difference(a, b)
    &&& forall|force: W::Force, dt: W::Real, c: W::Momentum| #[trigger]
        call_ensures(W::impulse_of, (force, dt), c) ==> c == impulse(force, dt)
    &&& forall|a: W::Momentum, b: W::Momentum| #[trigger] sum(a, b) == sum(b, a)
    &&& forall|a: W::Momentum, b: W::Momentum, c: W::Momentum| #[trigger]
        sum(sum(a, b), c) == sum(a, sum(b, c))
    &&& forall|a: W::Momentum, b: W::Momentum| #[trigger] difference(sum(a, b), b) == a
    &&& forall|a: W::Momentum, b: W::Momentum| #[trigger] sum(difference(a, b), b) == a
}

/// The momentum that is owed credits the external forces and nothing else: if the velocities
/// carry some momentum and, on top of it, that of the increment, then what is owed is that
/// momentum plus the impulse of the external forces.
pub proof fn law_ledger_credits_external_forces<W: MultibodyDynamics>(
    sum: spec_fn(W::Momentum, W::Momentum) -> W::Momentum,
    difference: spec_fn(W::Momentum, W::Momentum) -> W::Momentum,
    impulse: spec_fn(W::Force, W::Real) -> W::Momentum,
    carried: W::Momentum,
    mapped: W::Momentum,
    force: W::Force,
    dt: W::Real,
    target: W::Momentum,
)
    requires
        exact_momentum::<W>(sum, difference, impulse),
        balances::<W>(sum(carried, mapped), mapped, force, dt, target),
    ensures
        target == sum(carried, impulse(force, dt)),
{
}

/// Impulses of constraints need no bookkeeping: one that changes the momentum of the velocities
/// changes what is owed by the same amount. In particular, one that carries no momentum changes
/// nothing.
pub proof fn law_ledger_passes_constraint_impulses<W: MultibodyDynamics>(
    sum: spec_fn(W::Momentum, W::Momentum) -> W::Momentum,
    difference: spec_fn(W::Momentum, W::Momentum) -> W::Momentum,
    impulse: spec_fn(W::Force, W::Real) -> W::Momentum,
    momentum: W::Momentum,
    change: W::Momentum,
    mapped: W::Momentum,
    force: W::Force,
    dt: W::Real,
    target: W::Momentum,
    target_changed: W::Momentum,
)
    requires
        exact_momentum::<W>(sum, difference, impulse),
        balances::<W>(momentum, mapped, force, dt, target),
        balances::<W>(sum(momentum, change), mapped, force, dt, target_changed),
    ensures
        target_changed == sum(target, change),
        sum(momentum, change) == momentum ==> target_changed == target,
{
    let remaining = difference(momentum, mapped);
    let credit = impulse(force, dt);
    assert(target == sum(remaining, credit));
    assert(target_changed == sum(difference(sum(momentum, change), mapped), credit));
    assert(sum(momentum, change) == sum(sum(remaining, change), mapped)) by {
        assert(sum(remaining, mapped) == momentum);
        assert(sum(sum(remaining, mapped), change) == sum(remaining, sum(mapped, change)));
        assert(sum(mapped, change) == sum(change, mapped));
        assert(sum(sum(remaining, change), mapped) == sum(remaining, sum(change, mapped)));
    }
    assert(difference(sum(sum(remaining, change), mapped), mapped) == sum(remaining, change));
    assert(sum(sum(remaining, change), credit) == sum(sum(remaining, credit), change)) by {
        assert(sum(sum(remaining, change), credit) == sum(remaining, sum(change, credit)));
        assert(sum(change, credit) == sum(credit, change));
        assert(sum(sum(remaining, credit), change) == sum(remaining, sum(credit, change)));
    }
}

} // verus!
