//! The set of joint constraints that the solver works on.

use crate::buffers::{each_mut, resize};
use crate::dynamics::MultibodyDynamics;
use crate::multibody::{
    IntegrationParameters, MultibodyJointSet, MultibodyLinkId, RigidBodyHandle,
};
use vstd::prelude::*;

verus! {

broadcast use vstd::seq_lib::group_seq_properties;

use crate::buffers::resized;

/// One row of a joint constraint that has a multibody on at least one side.
pub struct GenericJointConstraint<R, K> {
    /// The impulse that the solver has accumulated.
    pub impulse: R,
    /// The least and the greatest impulse that the constraint may accumulate.
    pub impulse_bounds: [R; 2],
    /// The jacobians, masses and targets of the row.
    pub row: K,
}

impl<R: Copy, K: Copy> Clone for GenericJointConstraint<R, K> {
    fn clone(&self) -> (out: Self)
        ensures
            out == *self,
    {
        *self
    }
}

impl<R: Copy, K: Copy> Copy for GenericJointConstraint<R, K> {

}

/// What generates a group of generic joint constraints, and updates them.
pub enum GenericJointConstraintBuilder<E, I> {
    /// A joint between a multibody and another body.
    External(E),
    /// The limits and motors of the joint of one link.
    Internal(I),
    /// No constraint.
    Empty,
}

/// A joint of the joint graph.
pub struct JointGraphEdge<J> {
    /// The joint.
    pub weight: J,
}

/// What the generation of joint constraints accumulates.
pub struct JointAssembly<R> {
    /// The jacobians of the constraints that were generated.
    pub jacobians: Vec<R>,
    /// Where the next jacobian goes.
    pub j_id: usize,
    /// The number of constraints that were generated.
    pub num_constraints: usize,
}

/// A joint constraint of any kind.
pub enum AnyJointConstraint<'a, M: JointConstraintModel> {
    Generic(&'a GenericJointConstraint<M::Real, M::Row>),
    Rigid(&'a M::JointConstraint),
    SimdRigid(&'a M::SimdJointConstraint),
}

/// A joint constraint of any kind, to be changed in place.
pub enum AnyJointConstraintMut<'a, M: JointConstraintModel> {
    Generic(&'a mut GenericJointConstraint<M::Real, M::Row>),
    Rigid(&'a mut M::JointConstraint),
    SimdRigid(&'a mut M::SimdJointConstraint),
}

/// A builder of generic joint constraints.
pub type Builder<M> = GenericJointConstraintBuilder<
    <M as JointConstraintModel>::ExternalBuilder,
    <M as JointConstraintModel>::InternalBuilder,
>;

/// A generic joint constraint.
pub type Constraint<M> = GenericJointConstraint<
    <M as MultibodyDynamics>::Real,
    <M as JointConstraintModel>::Row,
>;

/// How joint constraints are generated, updated and written back.
pub trait JointConstraintModel: MultibodyDynamics {
    /// What a generic joint constraint holds besides its impulse.
    type Row: Copy;

    /// A constraint between two rigid bodies.
    type JointConstraint;

    /// A group of constraints between rigid bodies, one for each SIMD lane.
    type SimdJointConstraint;

    /// A builder of constraints between two rigid bodies.
    type JointConstraintBuilder;

    /// A builder of SIMD constraints between rigid bodies.
    type JointConstraintBuilderSimd;

    /// A builder of the constraints of a joint between a multibody and another body.
    type ExternalBuilder;

    /// A builder of the constraints of a joint inside a multibody.
    type InternalBuilder;

    /// A joint.
    type Joint;

    /// A constraint that stands in a slot which was not generated yet.
    fn invalid_joint_constraint() -> Constraint<Self>;

    /// The number of constraints that the joint of a link needs.
    fn num_internal_constraints(
        &self,
        multibodies: &MultibodyJointSet<Self::Real>,
        link: &MultibodyLinkId,
    ) -> usize;

    /// Generates the builder of a joint between a multibody and another body.
    fn generate_external(
        &self,
        multibodies: &MultibodyJointSet<Self::Real>,
        joint_id: usize,
        joint: &Self::Joint,
        builder: Builder<Self>,
        assembly: JointAssembly<Self::Real>,
    ) -> (Builder<Self>, JointAssembly<Self::Real>);

    /// Generates the builder of the joint of a link.
    fn generate_internal(
        &self,
        multibodies: &MultibodyJointSet<Self::Real>,
        link: &MultibodyLinkId,
        builder: Builder<Self>,
        assembly: JointAssembly<Self::Real>,
    ) -> (Builder<Self>, JointAssembly<Self::Real>);

    /// Derives the constraints of a joint between a multibody and another body.
    fn update_external(
        &self,
        builder: Self::ExternalBuilder,
        params: &IntegrationParameters<Self::Real>,
        multibodies: &MultibodyJointSet<Self::Real>,
        solver_bodies: &Vec<Self::SolverBody>,
        jacobians: Vec<Self::Real>,
        constraints: Vec<Constraint<Self>>,
    ) -> (Self::ExternalBuilder, Vec<Self::Real>, Vec<Constraint<Self>>);

    /// Derives the constraints of the joint of a link.
    fn update_internal(
        &self,
        builder: Self::InternalBuilder,
        params: &IntegrationParameters<Self::Real>,
        multibodies: &MultibodyJointSet<Self::Real>,
        jacobians: Vec<Self::Real>,
        constraints: Vec<Constraint<Self>>,
    ) -> (Self::InternalBuilder, Vec<Self::Real>, Vec<Constraint<Self>>);

    /// Writes the impulse of a constraint back to its joint.
    fn writeback_impulses(
        constraint: AnyJointConstraint<'_, Self>,
        joints: Vec<JointGraphEdge<Self::Joint>>,
    ) -> Vec<JointGraphEdge<Self::Joint>>;
}

/// What the derivation of the generic constraints changes.
pub struct CoupledState<M: JointConstraintModel> {
    pub builders: Seq<Builder<M>>,
    pub jacobians: Vec<M::Real>,
    pub constraints: Vec<Constraint<M>>,
}

/// What the generic constraints are derived from.
pub struct CouplingInputs<M: JointConstraintModel> {
    pub world: M,
    pub params: IntegrationParameters<M::Real>,
    pub multibodies: MultibodyJointSet<M::Real>,
    pub solver_bodies: Vec<M::SolverBody>,
}

/// Whether `post` is `pre` once the constraints of builder `k` have been derived anew.
pub open spec fn builder_updated<M: JointConstraintModel>(
    inputs: CouplingInputs<M>,
    k: int,
    pre: CoupledState<M>,
    post: CoupledState<M>,
) -> bool {
    match pre.builders[k] {
        GenericJointConstraintBuilder::External(builder) => exists|
            out: (M::ExternalBuilder, Vec<M::Real>, Vec<Constraint<M>>),
        |
            {
                &&& #[trigger] call_ensures(
                    M::update_external,
                    (
                        &inputs.world,
                        builder,
                        &inputs.params,
                        &inputs.multibodies,
                        &inputs.solver_bodies,
                        pre.jacobians,
                        pre.constraints,
                    ),
                    out,
                )
                &&& post.builders == pre.builders.update(
                    k,
                    GenericJointConstraintBuilder::External(out.0),
                )
                &&& post.jacobians == out.1
                &&& post.constraints == out.2
            },
        GenericJointConstraintBuilder::Internal(builder) => exists|
            out: (M::InternalBuilder, Vec<M::Real>, Vec<Constraint<M>>),
        |
            {
                &&& #[trigger] call_ensures(
                    M::update_internal,
                    (
                        &inputs.world,
                        builder,
                        &inputs.params,
                        &inputs.multibodies,
                        pre.jacobians,
                        pre.constraints,
                    ),
                    out,
                )
                &&& post.builders == pre.builders.update(
                    k,
                    GenericJointConstraintBuilder::Internal(out.0),
                )
                &&& post.jacobians == out.1
                &&& post.constraints == out.2
            },
        GenericJointConstraintBuilder::Empty => post == pre,
    }
}

/// Whether `post` is `pre` once the constraints of the first `n` builders have been derived anew,
/// one builder after the other.
pub open spec fn builders_updated<M: JointConstraintModel>(
    inputs: CouplingInputs<M>,
    n: nat,
    pre: CoupledState<M>,
    post: CoupledState<M>,
) -> bool
    decreases n,
{
    if n == 0 {
        post == pre
    } else {
        exists|mid: CoupledState<M>|
            {
                &&& builders_updated(inputs, (n - 1) as nat, pre, mid)
                &&& #[trigger] builder_updated(inputs, n - 1, mid, post)
            }
    }
}

proof fn lemma_builders_updated_push<M: JointConstraintModel>(
    inputs: CouplingInputs<M>,
    n: nat,
    pre: CoupledState<M>,
    mid: CoupledState<M>,
    post: CoupledState<M>,
)
    requires
        builders_updated(inputs, n, pre, mid),
        builder_updated(inputs, n as int, mid, post),
    ensures
        builders_updated(inputs, n + 1, pre, post),
{
    assert(builder_updated(inputs, (n + 1) - 1, mid, post));
}

/// The impulses and impulse bounds of constraints.
pub open spec fn impulses_of<R, K>(
    constraints: Seq<GenericJointConstraint<R, K>>,
) -> Seq<(R, [R; 2])> {
    Seq::new(
        constraints.len(),
        |i: int| (constraints[i].impulse, constraints[i].impulse_bounds),
    )
}

/// Constraints with the impulses and impulse bounds given, as far as they reach.
pub open spec fn with_impulses<R, K>(
    constraints: Seq<GenericJointConstraint<R, K>>,
    impulses: Seq<(R, [R; 2])>,
) -> Seq<GenericJointConstraint<R, K>> {
    Seq::new(
        constraints.len(),
        |i: int|
            if i < impulses.len() {
                GenericJointConstraint {
                    impulse: impulses[i].0,
                    impulse_bounds: impulses[i].1,
                    ..constraints[i]
                }
            } else {
                constraints[i]
            },
    )
}

/// The impulses and impulse bounds of constraints.
pub fn save_impulses<R: Copy, K: Copy>(
    constraints: &Vec<GenericJointConstraint<R, K>>,
) -> (impulses: Vec<(R, [R; 2])>)
    ensures
        impulses@ == impulses_of(constraints@),
        impulses@.len() == constraints@.len(),
        forall|i: int|
            0 <= i < constraints@.len() ==> (#[trigger] impulses@[i]).0 == constraints@[i].impulse
                && impulses@[i].1 == constraints@[i].impulse_bounds,
{
    let mut impulses: Vec<(R, [R; 2])> = Vec::new();
    let mut i: usize = 0;
    while i < constraints.len()
        invariant
            i <= constraints.len(),
            impulses@ == impulses_of(constraints@.take(i as int)),
        decreases constraints.len() - i,
    {
        let constraint = constraints[i];
        impulses.push((constraint.impulse, constraint.impulse_bounds));
        i += 1;
    }
    assert(constraints@.take(i as int) == constraints@);
    impulses
}

/// Gives constraints the impulses and impulse bounds that were saved.
pub fn restore_impulses<R: Copy, K: Copy>(
    constraints: &mut Vec<GenericJointConstraint<R, K>>,
    impulses: &Vec<(R, [R; 2])>,
)
    ensures
        final(constraints)@ == with_impulses(old(constraints)@, impulses@),
        final(constraints)@.len() == old(constraints)@.len(),
        forall|i: int|
            0 <= i < old(constraints)@.len() ==> (#[trigger] final(constraints)@[i]).row
                == old(constraints)@[i].row,
        forall|i: int|
            0 <= i < old(constraints)@.len() && i < impulses@.len() ==> (
            #[trigger] final(constraints)@[i]).impulse == impulses@[i].0
                && final(constraints)@[i].impulse_bounds == impulses@[i].1,
        forall|i: int|
            impulses@.len() <= i < old(constraints)@.len() ==> #[trigger] final(constraints)@[i]
                == old(constraints)@[i],
{
    let ghost before = constraints@;
    let mut i: usize = 0;
    while i < constraints.len() && i < impulses.len()
        invariant
            i <= constraints.len(),
            i <= impulses.len(),
            constraints@ == with_impulses(before, impulses@.take(i as int)),
        decreases constraints.len() - i,
    {
        let mut constraint = constraints[i];
        constraint.impulse = impulses[i].0;
        constraint.impulse_bounds = impulses[i].1;
        constraints.set(i, constraint);
        i += 1;
    }
    assert(constraints@ == with_impulses(before, impulses@));
}

/// What joint constraints are generated from.
pub struct GenerationInputs<M: JointConstraintModel> {
    pub world: M,
    pub multibodies: MultibodyJointSet<M::Real>,
    pub joints: Seq<JointGraphEdge<M::Joint>>,
}

/// What the generation of joint constraints changes.
pub struct GenerationState<M: JointConstraintModel> {
    /// The builders.
    pub builders: Seq<Builder<M>>,
    /// What was generated so far.
    pub assembly: JointAssembly<M::Real>,
    /// The builder that is generated next.
    pub next: nat,
}

/// Whether `n` of the bodies of an island are links whose joints need constraints.
pub open spec fn internal_builders_counted<M: JointConstraintModel>(
    inputs: GenerationInputs<M>,
    island: Seq<RigidBodyHandle>,
    n: nat,
) -> bool
    decreases island.len(),
{
    if island.len() == 0 {
        n == 0
    } else {
        match inputs.multibodies.link_of(island.last()) {
            Some(link) => exists|count: usize|
                {
                    &&& #[trigger] call_ensures(
                        M::num_internal_constraints,
                        (&inputs.world, &inputs.multibodies, &link),
                        count,
                    )
                    &&& if count > 0 {
                        n > 0 && internal_builders_counted(
                            inputs,
                            island.drop_last(),
                            (n - 1) as nat,
                        )
                    } else {
                        internal_builders_counted(inputs, island.drop_last(), n)
                    }
                },
            None => internal_builders_counted(inputs, island.drop_last(), n),
        }
    }
}

/// Whether `post` is `pre` once the next builder has been generated for a joint between a
/// multibody and another body.
pub open spec fn external_generated<M: JointConstraintModel>(
    inputs: GenerationInputs<M>,
    joint_id: usize,
    pre: GenerationState<M>,
    post: GenerationState<M>,
) -> bool {
    exists|out: (Builder<M>, JointAssembly<M::Real>)|
        {
            &&& #[trigger] call_ensures(
                M::generate_external,
                (
                    &inputs.world,
                    &inputs.multibodies,
                    joint_id,
                    &inputs.joints[joint_id as int].weight,
                    pre.builders[pre.next as int],
                    pre.assembly,
                ),
                out,
            )
            &&& post.builders == pre.builders.update(pre.next as int, out.0)
            &&& post.assembly == out.1
            &&& post.next == pre.next + 1
        }
}

/// Whether `post` is `pre` once builders have been generated for joints between a multibody and
/// another body, one after the other.
pub open spec fn externals_generated<M: JointConstraintModel>(
    inputs: GenerationInputs<M>,
    joint_ids: Seq<usize>,
    pre: GenerationState<M>,
    post: GenerationState<M>,
) -> bool
    decreases joint_ids.len(),
{
    if joint_ids.len() == 0 {
        post == pre
    } else {
        exists|mid: GenerationState<M>|
            {
                &&& externals_generated(inputs, joint_ids.drop_last(), pre, mid)
                &&& #[trigger] external_generated(inputs, joint_ids.last(), mid, post)
            }
    }
}

/// Whether `post` is `pre` once the joint of a body has been dealt with. If the body is a link,
/// and there is a builder left, that builder is generated for its joint. The builder is used up
/// only if this added constraints.
pub open spec fn internal_generated<M: JointConstraintModel>(
    inputs: GenerationInputs<M>,
    handle: RigidBodyHandle,
    pre: GenerationState<M>,
    post: GenerationState<M>,
) -> bool {
    match inputs.multibodies.link_of(handle) {
        Some(link) => if pre.next >= pre.builders.len() {
            post == pre
        } else {
            exists|out: (Builder<M>, JointAssembly<M::Real>)|
                {
                    &&& #[trigger] call_ensures(
                        M::generate_internal,
                        (
                            &inputs.world,
                            &inputs.multibodies,
                            &link,
                            pre.builders[pre.next as int],
                            pre.assembly,
                        ),
                        out,
                    )
                    &&& post.builders == pre.builders.update(pre.next as int, out.0)
                    &&& post.assembly == out.1
                    &&& post.next == if out.1.num_constraints != pre.assembly.num_constraints {
                        pre.next + 1
                    } else {
                        pre.next
                    }
                }
        },
        None => post == pre,
    }
}

/// Whether `post` is `pre` once the joints of the bodies of an island have been dealt with, one
/// after the other.
pub open spec fn internals_generated<M: JointConstraintModel>(
    inputs: GenerationInputs<M>,
    island: Seq<RigidBodyHandle>,
    pre: GenerationState<M>,
    post: GenerationState<M>,
) -> bool
    decreases island.len(),
{
    if island.len() == 0 {
        post == pre
    } else {
        exists|mid: GenerationState<M>|
            {
                &&& internals_generated(inputs, island.drop_last(), pre, mid)
                &&& #[trigger] internal_generated(inputs, island.last(), mid, post)
            }
    }
}

proof fn lemma_externals_generated_push<M: JointConstraintModel>(
    inputs: GenerationInputs<M>,
    joint_ids: Seq<usize>,
    joint_id: usize,
    pre: GenerationState<M>,
    mid: GenerationState<M>,
    post: GenerationState<M>,
)
    requires
        externals_generated(inputs, joint_ids, pre, mid),
        external_generated(inputs, joint_id, mid, post),
    ensures
        externals_generated(inputs, joint_ids.push(joint_id), pre, post),
{
    assert(joint_ids.push(joint_id).drop_last() == joint_ids);
    assert(external_generated(inputs, joint_ids.push(joint_id).last(), mid, post));
}

proof fn lemma_internals_generated_push<M: JointConstraintModel>(
    inputs: GenerationInputs<M>,
    island: Seq<RigidBodyHandle>,
    handle: RigidBodyHandle,
    pre: GenerationState<M>,
    mid: GenerationState<M>,
    post: GenerationState<M>,
)
    requires
        internals_generated(inputs, island, pre, mid),
        internal_generated(inputs, handle, mid, post),
    ensures
        internals_generated(inputs, island.push(handle), pre, post),
{
    assert(island.push(handle).drop_last() == island);
    assert(internal_generated(inputs, island.push(handle).last(), mid, post));
}

/// When no builder is left, the joints of the bodies that follow add nothing.
proof fn lemma_internals_generated_exhausted<M: JointConstraintModel>(
    inputs: GenerationInputs<M>,
    island: Seq<RigidBodyHandle>,
    n: int,
    pre: GenerationState<M>,
    post: GenerationState<M>,
)
    requires
        0 <= n <= island.len(),
        internals_generated(inputs, island.take(n), pre, post),
        post.next >= post.builders.len(),
    ensures
        internals_generated(inputs, island, pre, post),
    decreases island.len() - n,
{
    if n < island.len() {
        lemma_internals_generated_push(inputs, island.take(n), island[n], pre, post, post);
        assert(island.take(n).push(island[n]) == island.take(n + 1));
        lemma_internals_generated_exhausted(inputs, island, n + 1, pre, post);
    } else {
        assert(island.take(n) == island);
    }
}

/// Cuts the builders, or extends them by empty ones, to a length.
fn resize_builders<E, I>(builders: &mut Vec<GenericJointConstraintBuilder<E, I>>, n: usize)
    ensures
        final(builders)@ == resized(
            old(builders)@,
            n as nat,
            GenericJointConstraintBuilder::Empty,
        ),
{
    let ghost before = builders@;
    builders.truncate(n);
    while builders.len() < n
        invariant
            builders.len() <= n,
            builders@ == resized(
                before,
                builders@.len(),
                GenericJointConstraintBuilder::Empty,
            ),
            before.len() <= n ==> builders.len() >= before.len(),
            before.len() > n ==> builders.len() == n,
        decreases n - builders.len(),
    {
        builders.push(GenericJointConstraintBuilder::Empty);
    }
}

/// The number of bodies of an island that are links whose joints need constraints.
fn count_internal_builders<M: JointConstraintModel>(
    world: &M,
    multibodies: &MultibodyJointSet<M::Real>,
    island_bodies: &[RigidBodyHandle],
    Ghost(inputs): Ghost<GenerationInputs<M>>,
) -> (count: usize)
    requires
        inputs.world == *world,
        inputs.multibodies == *multibodies,
    ensures
        internal_builders_counted(inputs, island_bodies@, count as nat),
        count <= island_bodies@.len(),
{
    let mut count: usize = 0;
    let mut i: usize = 0;
    while i < island_bodies.len()
        invariant
            i <= island_bodies.len(),
            count <= i,
            inputs.world == *world,
            inputs.multibodies == *multibodies,
            internal_builders_counted(inputs, island_bodies@.take(i as int), count as nat),
        decreases island_bodies.len() - i,
    {
        let ghost island = island_bodies@.take(i + 1);
        assert(island.drop_last() == island_bodies@.take(i as int));
        if let Some(link) = multibodies.rigid_body_link(island_bodies[i]) {
            let needed: usize = world.num_internal_constraints(multibodies, link);
            if needed > 0 {
                count += 1;
            }
        }
        i += 1;
    }
    assert(island_bodies@.take(i as int) == island_bodies@);
    count
}

/// The joint constraints of an island, and the builders that they are derived by.
pub struct JointConstraintsSet<M: JointConstraintModel> {
    pub generic_jacobians: Vec<M::Real>,
    pub two_body_interactions: Vec<usize>,
    pub generic_two_body_interactions: Vec<usize>,
    pub generic_velocity_constraints: Vec<Constraint<M>>,
    pub velocity_constraints: Vec<M::JointConstraint>,
    pub simd_velocity_constraints: Vec<M::SimdJointConstraint>,
    pub generic_velocity_constraints_builder: Vec<Builder<M>>,
    pub velocity_constraints_builder: Vec<M::JointConstraintBuilder>,
    pub simd_velocity_constraints_builder: Vec<M::JointConstraintBuilderSimd>,
}

impl<M: JointConstraintModel> JointConstraintsSet<M> {
    /// A set without constraints.
    pub fn new() -> (set: Self)
        ensures
            set.generic_jacobians@.len() == 0,
            set.two_body_interactions@.len() == 0,
            set.generic_two_body_interactions@.len() == 0,
            set.generic_velocity_constraints@.len() == 0,
            set.velocity_constraints@.len() == 0,
            set.simd_velocity_constraints@.len() == 0,
            set.generic_velocity_constraints_builder@.len() == 0,
            set.velocity_constraints_builder@.len() == 0,
            set.simd_velocity_constraints_builder@.len() == 0,
    {
        JointConstraintsSet {
            generic_jacobians: Vec::new(),
            two_body_interactions: Vec::new(),
            generic_two_body_interactions: Vec::new(),
            generic_velocity_constraints: Vec::new(),
            velocity_constraints: Vec::new(),
            simd_velocity_constraints: Vec::new(),
            generic_velocity_constraints_builder: Vec::new(),
            velocity_constraints_builder: Vec::new(),
            simd_velocity_constraints_builder: Vec::new(),
        }
    }

    /// The position of the first constraint between rigid bodies, when the generic ones come first.
    pub open spec fn rigid_start(&self) -> int {
        self.generic_velocity_constraints@.len() as int
    }

    /// The position of the first SIMD constraint, when all the others come first.
    pub open spec fn simd_start(&self) -> int {
        self.rigid_start() + self.velocity_constraints@.len()
    }

    /// The number of constraints.
    pub open spec fn num_constraints(&self) -> nat {
        self.generic_velocity_constraints@.len() + self.velocity_constraints@.len()
            + self.simd_velocity_constraints@.len()
    }

    /// What the derivation of the generic constraints changes.
    pub open spec fn coupled_state(&self) -> CoupledState<M> {
        CoupledState {
            builders: self.generic_velocity_constraints_builder@,
            jacobians: self.generic_jacobians,
            constraints: self.generic_velocity_constraints,
        }
    }

    /// Whether this set is the set `before` once its generic constraints have been derived anew,
    /// each builder in turn, and have been given their impulses and impulse bounds back.
    pub open spec fn updated_from(&self, before: &Self, inputs: CouplingInputs<M>) -> bool {
        exists|updated: CoupledState<M>|
            {
                &&& #[trigger] builders_updated(
                    inputs,
                    before.generic_velocity_constraints_builder@.len(),
                    before.coupled_state(),
                    updated,
                )
                &&& self.generic_velocity_constraints_builder@ == updated.builders
                &&& self.generic_jacobians == updated.jacobians
                &&& self.generic_velocity_constraints@ == with_impulses(
                    updated.constraints@,
                    impulses_of(before.generic_velocity_constraints@),
                )
            }
    }

    /// What the generation of the generic constraints starts from, if it needs `n` builders.
    pub open spec fn generation_start(&self, n: nat, j_id: usize) -> GenerationState<M> {
        GenerationState {
            builders: resized(
                self.generic_velocity_constraints_builder@,
                n,
                GenericJointConstraintBuilder::Empty,
            ),
            assembly: JointAssembly {
                jacobians: self.generic_jacobians,
                j_id,
                num_constraints: 0,
            },
            next: 0,
        }
    }

    /// Whether this set is the set `before` once the generic joint constraints of an island have
    /// been generated.
    ///
    /// There is one builder for each interaction, and one for each body that is a link whose
    /// joint needs constraints. The builders of the interactions are generated first, those of
    /// the links after them. Then there are as many constraints as the builders asked for.
    pub open spec fn generated_from(
        &self,
        before: &Self,
        inputs: GenerationInputs<M>,
        island: Seq<RigidBodyHandle>,
        j_id: usize,
        j_id_after: usize,
    ) -> bool {
        exists|
            num_internal: nat,
            externals: GenerationState<M>,
            all: GenerationState<M>,
            invalid: Constraint<M>,
        |
            {
                &&& #[trigger] internal_builders_counted(inputs, island, num_internal)
                &&& externals_generated(
                    inputs,
                    before.generic_two_body_interactions@,
                    before.generation_start(
                        before.generic_two_body_interactions@.len() + num_internal,
                        j_id,
                    ),
                    externals,
                )
                &&& #[trigger] internals_generated(inputs, island, externals, all)
                &&& self.generic_velocity_constraints_builder@ == all.builders
                &&& self.generic_jacobians == all.assembly.jacobians
                &&& j_id_after == all.assembly.j_id
                &&& #[trigger] call_ensures(M::invalid_joint_constraint, (), invalid)
                &&& self.generic_velocity_constraints@ == resized(
                    before.generic_velocity_constraints@,
                    all.assembly.num_constraints as nat,
                    invalid,
                )
            }
    }

    /// Whether everything but the generic constraints, their jacobians and their builders is the
    /// same in two sets.
    pub open spec fn same_rigid_part(&self, other: &Self) -> bool {
        &&& self.two_body_interactions == other.two_body_interactions
        &&& self.generic_two_body_interactions == other.generic_two_body_interactions
        &&& self.velocity_constraints == other.velocity_constraints
        &&& self.simd_velocity_constraints == other.simd_velocity_constraints
        &&& self.velocity_constraints_builder == other.velocity_constraints_builder
        &&& self.simd_velocity_constraints_builder == other.simd_velocity_constraints_builder
    }

    /// Derives every constraint that touches a multibody anew, from the current positions and
    /// mass matrices of the multibodies. The impulses that were accumulated, and the bounds on
    /// them, stay: a limit that is no longer active would get bounds of zero, and the solver
    /// would take back an impulse that was already applied.
    ///
    /// Constraints between rigid bodies never leak momentum, and are left alone.
    pub fn update_multibody_coupled(
        &mut self,
        params: &IntegrationParameters<M::Real>,
        world: &M,
        multibodies: &MultibodyJointSet<M::Real>,
        solver_bodies: &Vec<M::SolverBody>,
    )
        ensures
            final(self).updated_from(
                old(self),
                (CouplingInputs {
                    world: *world,
                    params: *params,
                    multibodies: *multibodies,
                    solver_bodies: *solver_bodies,
                }),
            ),
            forall|i: int|
                #![trigger final(self).generic_velocity_constraints@[i]]
                0 <= i < old(self).generic_velocity_constraints@.len()
                    && i < final(self).generic_velocity_constraints@.len() ==> {
                    let before = old(self).generic_velocity_constraints@[i];
                    let after = final(self).generic_velocity_constraints@[i];
                    &&& after.impulse == before.impulse
                    &&& after.impulse_bounds == before.impulse_bounds
                },
            final(self).same_rigid_part(old(self)),
            final(self).two_body_interactions == old(self).two_body_interactions,
            final(self).generic_two_body_interactions == old(self).generic_two_body_interactions,
            final(self).velocity_constraints == old(self).velocity_constraints,
            final(self).simd_velocity_constraints == old(self).simd_velocity_constraints,
            final(self).velocity_constraints_builder == old(self).velocity_constraints_builder,
            final(self).simd_velocity_constraints_builder
                == old(self).simd_velocity_constraints_builder,
    {
        let ghost pre = self.coupled_state();
        let ghost inputs = CouplingInputs {
            world: *world,
            params: *params,
            multibodies: *multibodies,
            solver_bodies: *solver_bodies,
        };
        let impulses = save_impulses(&self.generic_velocity_constraints);
        let mut jacobians: Vec<M::Real> = Vec::new();
        core::mem::swap(&mut jacobians, &mut self.generic_jacobians);
        let mut constraints: Vec<Constraint<M>> = Vec::new();
        core::mem::swap(&mut constraints, &mut self.generic_velocity_constraints);
        let mut builders: Vec<Builder<M>> = Vec::new();
        core::mem::swap(&mut builders, &mut self.generic_velocity_constraints_builder);
        let n: usize = builders.len();
        let mut k: usize = 0;
        while k < n
            invariant
                k <= n,
                n == builders.len(),
                inputs == (CouplingInputs {
                    world: *world,
                    params: *params,
                    multibodies: *multibodies,
                    solver_bodies: *solver_bodies,
                }),
                builders_updated(
                    inputs,
                    k as nat,
                    pre,
                    (CoupledState { builders: builders@, jacobians, constraints }),
                ),
            decreases n - k,
        {
            let ghost mid = CoupledState { builders: builders@, jacobians, constraints };
            let mut builder: Builder<M> = GenericJointConstraintBuilder::Empty;
            core::mem::swap(&mut builder, &mut builders[k]);
            match builder {
                GenericJointConstraintBuilder::External(builder) => {
                    let (builder, j, c) = world.update_external(
                        builder,
                        params,
                        multibodies,
                        solver_bodies,
                        jacobians,
                        constraints,
                    );
                    builders.set(k, GenericJointConstraintBuilder::External(builder));
                    assert(builders@ == mid.builders.update(
                        k as int,
                        GenericJointConstraintBuilder::External(builder),
                    ));
                    jacobians = j;
                    constraints = c;
                },
                GenericJointConstraintBuilder::Internal(builder) => {
                    let (builder, j, c) = world.update_internal(
                        builder,
                        params,
                        multibodies,
                        jacobians,
                        constraints,
                    );
                    builders.set(k, GenericJointConstraintBuilder::Internal(builder));
                    assert(builders@ == mid.builders.update(
                        k as int,
                        GenericJointConstraintBuilder::Internal(builder),
                    ));
                    jacobians = j;
                    constraints = c;
                },
                GenericJointConstraintBuilder::Empty => {
                    assert(builders@ == mid.builders);
                },
            }
            let ghost post = CoupledState { builders: builders@, jacobians, constraints };
            proof {
                lemma_builders_updated_push(inputs, k as nat, pre, mid, post);
            }
            k += 1;
        }
        let ghost updated = CoupledState { builders: builders@, jacobians, constraints };
        restore_impulses(&mut constraints, &impulses);
        self.generic_jacobians = jacobians;
        self.generic_velocity_constraints = constraints;
        self.generic_velocity_constraints_builder = builders;
        assert(builders_updated(inputs, n as nat, pre, updated));
    }

    /// Generates the builders of every joint constraint that touches a multibody. Those of joints
    /// between a multibody and another body come first, in the order of their interactions. Those
    /// of joints inside a multibody follow, in the order of the island.
    pub fn compute_generic_joint_constraints(
        &mut self,
        island_bodies: &[RigidBodyHandle],
        world: &M,
        multibodies: &MultibodyJointSet<M::Real>,
        joints_all: &[JointGraphEdge<M::Joint>],
        j_id: &mut usize,
    )
        requires
            forall|k: int|
                0 <= k < old(self).generic_two_body_interactions@.len()
                    ==> (#[trigger] old(self).generic_two_body_interactions@[k])
                    < joints_all@.len(),
            old(self).generic_two_body_interactions@.len() + island_bodies@.len() <= usize::MAX,
        ensures
            final(self).generated_from(
                old(self),
                (GenerationInputs {
                    world: *world,
                    multibodies: *multibodies,
                    joints: joints_all@,
                }),
                island_bodies@,
                *old(j_id),
                *final(j_id),
            ),
            final(self).same_rigid_part(old(self)),
            final(self).two_body_interactions == old(self).two_body_interactions,
            final(self).generic_two_body_interactions == old(self).generic_two_body_interactions,
            final(self).velocity_constraints == old(self).velocity_constraints,
            final(self).simd_velocity_constraints == old(self).simd_velocity_constraints,
            final(self).velocity_constraints_builder == old(self).velocity_constraints_builder,
            final(self).simd_velocity_constraints_builder
                == old(self).simd_velocity_constraints_builder,
    {
        let ghost inputs = GenerationInputs {
            world: *world,
            multibodies: *multibodies,
            joints: joints_all@,
        };
        let num_external: usize = self.generic_two_body_interactions.len();
        let num_internal: usize = count_internal_builders(
            world,
            multibodies,
            island_bodies,
            Ghost(inputs),
        );
        let total_num_builders: usize = num_external + num_internal;
        let ghost start = self.generation_start(total_num_builders as nat, *j_id);
        let ghost joint_ids = self.generic_two_body_interactions@;

        let mut builders: Vec<Builder<M>> = Vec::new();
        core::mem::swap(&mut builders, &mut self.generic_velocity_constraints_builder);
        resize_builders(&mut builders, total_num_builders);
        let mut jacobians: Vec<M::Real> = Vec::new();
        core::mem::swap(&mut jacobians, &mut self.generic_jacobians);
        let mut assembly = JointAssembly { jacobians, j_id: *j_id, num_constraints: 0 };

        let mut k: usize = 0;
        while k < num_external
            invariant
                k <= num_external,
                num_external <= builders.len(),
                num_external == joint_ids.len(),
                joint_ids == self.generic_two_body_interactions@,
                forall|k: int|
                    0 <= k < joint_ids.len() ==> (#[trigger] joint_ids[k]) < joints_all@.len(),
                self.same_rigid_part(old(self)),
                self.generic_velocity_constraints == old(self).generic_velocity_constraints,
                builders.len() == total_num_builders,
                inputs == (GenerationInputs {
                    world: *world,
                    multibodies: *multibodies,
                    joints: joints_all@,
                }),
                externals_generated(
                    inputs,
                    joint_ids.take(k as int),
                    start,
                    (GenerationState { builders: builders@, assembly, next: k as nat }),
                ),
            decreases num_external - k,
        {
            let ghost mid = GenerationState { builders: builders@, assembly, next: k as nat };
            let joint_id: usize = self.generic_two_body_interactions[k];
            let mut builder: Builder<M> = GenericJointConstraintBuilder::Empty;
            core::mem::swap(&mut builder, &mut builders[k]);
            let (builder, progress) = world.generate_external(
                multibodies,
                joint_id,
                &joints_all[joint_id].weight,
                builder,
                assembly,
            );
            builders.set(k, builder);
            assembly = progress;
            proof {
                let post = GenerationState { builders: builders@, assembly, next: k as nat + 1 };
                assert(post.builders == mid.builders.update(k as int, builder));
                lemma_externals_generated_push(
                    inputs,
                    joint_ids.take(k as int),
                    joint_id,
                    start,
                    mid,
                    post,
                );
                assert(joint_ids.take(k as int).push(joint_id) == joint_ids.take(k + 1));
            }
            k += 1;
        }
        assert(joint_ids.take(k as int) == joint_ids);
        let ghost externals = GenerationState { builders: builders@, assembly, next: k as nat };

        let mut curr_builder: usize = num_external;
        let mut i: usize = 0;
        assert(island_bodies@.take(0) == Seq::<RigidBodyHandle>::empty());
        while i < island_bodies.len() && curr_builder < builders.len()
            invariant
                i <= island_bodies.len(),
                builders.len() == total_num_builders,
                inputs == (GenerationInputs {
                    world: *world,
                    multibodies: *multibodies,
                    joints: joints_all@,
                }),
                internals_generated(
                    inputs,
                    island_bodies@.take(i as int),
                    externals,
                    (GenerationState { builders: builders@, assembly, next: curr_builder as nat }),
                ),
            decreases island_bodies.len() - i,
        {
            let ghost mid = GenerationState {
                builders: builders@,
                assembly,
                next: curr_builder as nat,
            };
            if let Some(link) = multibodies.rigid_body_link(island_bodies[i]) {
                let prev_num_constraints: usize = assembly.num_constraints;
                let mut builder: Builder<M> = GenericJointConstraintBuilder::Empty;
                core::mem::swap(&mut builder, &mut builders[curr_builder]);
                let (builder, progress) = world.generate_internal(
                    multibodies,
                    link,
                    builder,
                    assembly,
                );
                builders.set(curr_builder, builder);
                assembly = progress;
                assert(builders@ == mid.builders.update(curr_builder as int, builder));
                if assembly.num_constraints != prev_num_constraints {
                    curr_builder += 1;
                }
            }
            proof {
                let post = GenerationState {
                    builders: builders@,
                    assembly,
                    next: curr_builder as nat,
                };
                let handle = island_bodies@[i as int];
                lemma_internals_generated_push(
                    inputs,
                    island_bodies@.take(i as int),
                    handle,
                    externals,
                    mid,
                    post,
                );
                assert(island_bodies@.take(i as int).push(handle) == island_bodies@.take(i + 1));
            }
            i += 1;
        }
        let ghost all = GenerationState {
            builders: builders@,
            assembly,
            next: curr_builder as nat,
        };
        proof {
            if curr_builder < builders.len() {
                assert(island_bodies@.take(i as int) == island_bodies@);
            } else {
                lemma_internals_generated_exhausted(
                    inputs,
                    island_bodies@,
                    i as int,
                    externals,
                    all,
                );
            }
        }

        let invalid = M::invalid_joint_constraint();
        resize(&mut self.generic_velocity_constraints, assembly.num_constraints, invalid);
        *j_id = assembly.j_id;
        self.generic_jacobians = assembly.jacobians;
        self.generic_velocity_constraints_builder = builders;
        assert(internal_builders_counted(inputs, island_bodies@, num_internal as nat));
        assert(externals_generated(inputs, joint_ids, start, externals));
        assert(internals_generated(inputs, island_bodies@, externals, all));
    }

    /// Returns the generic jacobians and all the constraints, to be changed in place: first the
    /// generic ones, then those between rigid bodies, then the SIMD ones.
    pub fn iter_constraints_mut<'a>(&'a mut self) -> (out: (
        &'a Vec<M::Real>,
        Vec<AnyJointConstraintMut<'a, M>>,
    ))
        ensures
            *out.0 == old(self).generic_jacobians,
            out.1@.len() == old(self).num_constraints(),
            out.1@.len() == old(self).generic_velocity_constraints@.len()
                + old(self).velocity_constraints@.len()
                + old(self).simd_velocity_constraints@.len(),
            old(self).rigid_start() == old(self).generic_velocity_constraints@.len(),
            old(self).simd_start() == old(self).generic_velocity_constraints@.len()
                + old(self).velocity_constraints@.len(),
            old(self).num_constraints() == old(self).generic_velocity_constraints@.len()
                + old(self).velocity_constraints@.len()
                + old(self).simd_velocity_constraints@.len(),
            final(self).generic_velocity_constraints@.len()
                == old(self).generic_velocity_constraints@.len(),
            final(self).velocity_constraints@.len() == old(self).velocity_constraints@.len(),
            final(self).simd_velocity_constraints@.len()
                == old(self).simd_velocity_constraints@.len(),
            forall|i: int|
                0 <= i < old(self).rigid_start() ==> ((#[trigger] out.1@[i]) matches
                    AnyJointConstraintMut::Generic(c)
                    && *c == old(self).generic_velocity_constraints@[i]
                    && *final(c) == final(self).generic_velocity_constraints@[i]),
            forall|i: int|
                old(self).rigid_start() <= i < old(self).simd_start() ==> ((
                #[trigger] out.1@[i]) matches AnyJointConstraintMut::Rigid(c)
                    && *c == old(self).velocity_constraints@[i - old(self).rigid_start()]
                    && *final(c) == final(self).velocity_constraints@[i
                    - old(self).rigid_start()]),
            forall|i: int|
                old(self).simd_start() <= i < old(self).num_constraints() ==> ((
                #[trigger] out.1@[i]) matches AnyJointConstraintMut::SimdRigid(c)
                    && *c == old(self).simd_velocity_constraints@[i - old(self).simd_start()]
                    && *final(c) == final(self).simd_velocity_constraints@[i
                    - old(self).simd_start()]),
            final(self).generic_jacobians == old(self).generic_jacobians,
            final(self).two_body_interactions == old(self).two_body_interactions,
            final(self).generic_two_body_interactions == old(self).generic_two_body_interactions,
            final(self).generic_velocity_constraints_builder
                == old(self).generic_velocity_constraints_builder,
            final(self).velocity_constraints_builder == old(self).velocity_constraints_builder,
            final(self).simd_velocity_constraints_builder
                == old(self).simd_velocity_constraints_builder,
    {
        let jac = &self.generic_jacobians;
        let generic = each_mut(&mut self.generic_velocity_constraints);
        let rigid = each_mut(&mut self.velocity_constraints);
        let simd = each_mut(&mut self.simd_velocity_constraints);
        let ghost generic_refs = generic@;
        let ghost rigid_refs = rigid@;
        let mut all: Vec<AnyJointConstraintMut<'a, M>> = Vec::new();
        for constraint in it: generic
            invariant
                all@.len() == it.index(),
                forall|i: int|
                    0 <= i < it.index() ==> ((#[trigger] all@[i]) matches
                        AnyJointConstraintMut::Generic(c)
                        && *c == *it.seq()[i]
                        && *final(c) == *final(it.seq()[i])),
        {
            all.push(AnyJointConstraintMut::Generic(constraint));
        }
        for constraint in it: rigid
            invariant
                all@.len() == generic_refs.len() + it.index(),
                forall|i: int|
                    0 <= i < generic_refs.len() ==> ((#[trigger] all@[i]) matches
                        AnyJointConstraintMut::Generic(c)
                        && *c == *generic_refs[i]
                        && *final(c) == *final(generic_refs[i])),
                forall|i: int|
                    generic_refs.len() <= i < generic_refs.len() + it.index() ==> ((
                    #[trigger] all@[i]) matches AnyJointConstraintMut::Rigid(c)
                        && *c == *it.seq()[i - generic_refs.len()]
                        && *final(c) == *final(it.seq()[i - generic_refs.len()])),
        {
            all.push(AnyJointConstraintMut::Rigid(constraint));
        }
        for constraint in it: simd
            invariant
                all@.len() == generic_refs.len() + rigid_refs.len() + it.index(),
                forall|i: int|
                    0 <= i < generic_refs.len() ==> ((#[trigger] all@[i]) matches
                        AnyJointConstraintMut::Generic(c)
                        && *c == *generic_refs[i]
                        && *final(c) == *final(generic_refs[i])),
                forall|i: int|
                    generic_refs.len() <= i < generic_refs.len() + rigid_refs.len() ==> ((
                    #[trigger] all@[i]) matches AnyJointConstraintMut::Rigid(c)
                        && *c == *rigid_refs[i - generic_refs.len()]
                        && *final(c) == *final(rigid_refs[i - generic_refs.len()])),
                forall|i: int|
                    generic_refs.len() + rigid_refs.len() <= i < generic_refs.len()
                        + rigid_refs.len() + it.index() ==> ((#[trigger] all@[i]) matches
                        AnyJointConstraintMut::SimdRigid(c)
                        && *c == *it.seq()[i - generic_refs.len() - rigid_refs.len()]
                        && *final(c)
                        == *final(it.seq()[i - generic_refs.len() - rigid_refs.len()])),
        {
            all.push(AnyJointConstraintMut::SimdRigid(constraint));
        }
        (jac, all)
    }

    /// Whether `post` is `pre` once the impulse of constraint `k` has been written back. The
    /// generic constraints come first, then those between rigid bodies, then the SIMD ones.
    pub open spec fn one_written_back(
        &self,
        k: int,
        pre: Vec<JointGraphEdge<M::Joint>>,
        post: Vec<JointGraphEdge<M::Joint>>,
    ) -> bool {
        let rigid = k - self.rigid_start();
        let simd = k - self.simd_start();
        if rigid < 0 {
            call_ensures(
                M::writeback_impulses,
                (AnyJointConstraint::Generic(&self.generic_velocity_constraints@[k]), pre),
                post,
            )
        } else if simd < 0 {
            call_ensures(
                M::writeback_impulses,
                (AnyJointConstraint::Rigid(&self.velocity_constraints@[rigid]), pre),
                post,
            )
        } else {
            call_ensures(
                M::writeback_impulses,
                (AnyJointConstraint::SimdRigid(&self.simd_velocity_constraints@[simd]), pre),
                post,
            )
        }
    }

    /// Whether `post` is `pre` once the impulses of the first `n` constraints have been written
    /// back, one after the other.
    pub open spec fn written_back(
        &self,
        n: nat,
        pre: Vec<JointGraphEdge<M::Joint>>,
        post: Vec<JointGraphEdge<M::Joint>>,
    ) -> bool
        decreases n,
    {
        if n == 0 {
            post == pre
        } else {
            exists|mid: Vec<JointGraphEdge<M::Joint>>|
                {
                    &&& self.written_back((n - 1) as nat, pre, mid)
                    &&& #[trigger] self.one_written_back(n - 1, mid, post)
                }
        }
    }

    /// Whether writing the impulse of a constraint back adds no joint and drops none.
    pub open spec fn keeps_joint_count(&self) -> bool {
        forall|
            k: int,
            pre: Vec<JointGraphEdge<M::Joint>>,
            post: Vec<JointGraphEdge<M::Joint>>,
        |
            0 <= k < self.num_constraints() && #[trigger] self.one_written_back(k, pre, post)
                ==> post@.len() == pre@.len()
    }

    proof fn lemma_written_back_push(
        &self,
        n: nat,
        pre: Vec<JointGraphEdge<M::Joint>>,
        mid: Vec<JointGraphEdge<M::Joint>>,
        post: Vec<JointGraphEdge<M::Joint>>,
    )
        requires
            self.written_back(n, pre, mid),
            self.one_written_back(n as int, mid, post),
            n < self.num_constraints(),
        ensures
            self.written_back(n + 1, pre, post),
            self.keeps_joint_count() ==> post@.len() == mid@.len(),
    {
        assert(self.one_written_back((n + 1) - 1, mid, post));
    }

    /// Writes the impulse of every constraint back to its joint.
    pub fn writeback_impulses(&mut self, joints_all: &mut Vec<JointGraphEdge<M::Joint>>)
        ensures
            old(self).written_back(
                old(self).num_constraints(),
                *old(joints_all),
                *final(joints_all),
            ),
            old(self).keeps_joint_count() ==> final(joints_all)@.len() == old(joints_all)@.len(),
            *final(self) == *old(self),
    {
        let mut joints: Vec<JointGraphEdge<M::Joint>> = Vec::new();
        core::mem::swap(&mut joints, joints_all);
        let ghost initial = joints;
        let num_generic: usize = self.generic_velocity_constraints.len();
        let num_rigid: usize = self.velocity_constraints.len();
        let num_simd: usize = self.simd_velocity_constraints.len();
        let mut k: usize = 0;
        while k < num_generic
            invariant
                k <= num_generic,
                *self == *old(self),
                num_generic == self.generic_velocity_constraints@.len(),
                self.written_back(k as nat, initial, joints),
                self.keeps_joint_count() ==> joints@.len() == initial@.len(),
            decreases num_generic - k,
        {
            let ghost mid = joints;
            joints =
            M::writeback_impulses(
                AnyJointConstraint::Generic(&self.generic_velocity_constraints[k]),
                joints,
            );
            proof {
                self.lemma_written_back_push(k as nat, initial, mid, joints);
            }
            k += 1;
        }
        let mut k: usize = 0;
        while k < num_rigid
            invariant
                k <= num_rigid,
                *self == *old(self),
                num_generic == self.generic_velocity_constraints@.len(),
                num_rigid == self.velocity_constraints@.len(),
                self.written_back((num_generic + k) as nat, initial, joints),
                self.keeps_joint_count() ==> joints@.len() == initial@.len(),
            decreases num_rigid - k,
        {
            let ghost mid = joints;
            joints =
            M::writeback_impulses(
                AnyJointConstraint::Rigid(&self.velocity_constraints[k]),
                joints,
            );
            proof {
                self.lemma_written_back_push((num_generic + k) as nat, initial, mid, joints);
            }
            k += 1;
        }
        let mut k: usize = 0;
        while k < num_simd
            invariant
                k <= num_simd,
                *self == *old(self),
                num_generic == self.generic_velocity_constraints@.len(),
                num_rigid == self.velocity_constraints@.len(),
                num_simd == self.simd_velocity_constraints@.len(),
                self.written_back((num_generic + num_rigid + k) as nat, initial, joints),
                self.keeps_joint_count() ==> joints@.len() == initial@.len(),
            decreases num_simd - k,
        {
            let ghost mid = joints;
            joints =
            M::writeback_impulses(
                AnyJointConstraint::SimdRigid(&self.simd_velocity_constraints[k]),
                joints,
            );
            proof {
                self.lemma_written_back_push(
                    (num_generic + num_rigid + k) as nat,
                    initial,
                    mid,
                    joints,
                );
            }
            k += 1;
        }
        *joints_all = joints;
    }
}

} // verus!
