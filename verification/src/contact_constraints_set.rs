//! The set of contact constraints that the solver works on.

use crate::buffers::resize;
use crate::dynamics::MultibodyDynamics;
use crate::multibody::MultibodyJointSet;
use vstd::prelude::*;

verus! {

broadcast use vstd::seq_lib::group_seq_properties;

use crate::buffers::resized;

/// Identifies a contact manifold of a manifold store.
#[derive(Clone, Copy, Debug, PartialEq, Eq, Structural)]
pub struct ManifoldRef(pub usize);

/// The contact manifolds.
pub struct ManifoldStore<T> {
    pub manifolds: Vec<T>,
}

impl<T> ManifoldStore<T> {
    /// Whether a reference leads to a manifold.
    pub open spec fn contains(&self, r: ManifoldRef) -> bool {
        r.0 < self.manifolds@.len()
    }

    /// The manifold that a reference leads to.
    pub fn get(&self, r: ManifoldRef) -> (manifold: &T)
        requires
            self.contains(r),
        ensures
            *manifold == self.manifolds@[r.0 as int],
    {
        &self.manifolds[r.0]
    }
}

/// The contacts of an island as the solver schedules them.
pub struct SolverContactGraph {
    /// The manifolds that have a multibody on at least one side.
    pub generic_manifolds: Vec<ManifoldRef>,
}

impl SolverContactGraph {
    /// The manifolds that have a multibody on at least one side.
    pub fn generic(&self) -> (manifolds: &Vec<ManifoldRef>)
        ensures
            *manifolds == self.generic_manifolds,
    {
        &self.generic_manifolds
    }
}

/// What the generation of contact constraints accumulates.
pub struct ContactAssembly<R> {
    /// The jacobians of the constraints that were generated.
    pub jacobians: Vec<R>,
    /// Where the next jacobian goes.
    pub jacobian_id: usize,
}

/// How contact constraints are generated.
pub trait ContactConstraintModel: MultibodyDynamics {
    /// A contact manifold.
    type Manifold;

    /// A contact constraint that has a multibody on at least one side.
    type GenericContactConstraint: Copy;

    /// A builder of such a constraint.
    type GenericContactConstraintBuilder: Copy;

    /// A constraint that stands in a slot which was not generated yet.
    fn invalid_contact_constraint() -> Self::GenericContactConstraint;

    /// A builder that stands in a slot which was not generated yet.
    fn invalid_contact_builder() -> Self::GenericContactConstraintBuilder;

    /// Generates the builder and the constraint of a manifold.
    fn generate_contact(
        &self,
        multibodies: &MultibodyJointSet<Self::Real>,
        manifold_id: ManifoldRef,
        manifold: &Self::Manifold,
        builder: Self::GenericContactConstraintBuilder,
        constraint: Self::GenericContactConstraint,
        assembly: ContactAssembly<Self::Real>,
    ) -> (
        Self::GenericContactConstraintBuilder,
        Self::GenericContactConstraint,
        ContactAssembly<Self::Real>,
    );
}

/// What contact constraints are generated from.
pub struct ContactInputs<M: ContactConstraintModel> {
    pub world: M,
    pub multibodies: MultibodyJointSet<M::Real>,
    pub manifolds: Seq<M::Manifold>,
}

/// What the generation of contact constraints changes.
pub struct ContactState<M: ContactConstraintModel> {
    pub builders: Seq<M::GenericContactConstraintBuilder>,
    pub constraints: Seq<M::GenericContactConstraint>,
    pub assembly: ContactAssembly<M::Real>,
}

/// Whether `post` is `pre` once slot `k` has been generated for a manifold.
pub open spec fn contact_generated<M: ContactConstraintModel>(
    inputs: ContactInputs<M>,
    k: int,
    r: ManifoldRef,
    pre: ContactState<M>,
    post: ContactState<M>,
) -> bool {
    exists|
        out: (
            M::GenericContactConstraintBuilder,
            M::GenericContactConstraint,
            ContactAssembly<M::Real>,
        ),
    |
        {
            &&& #[trigger] call_ensures(
                M::generate_contact,
                (
                    &inputs.world,
                    &inputs.multibodies,
                    r,
                    &inputs.manifolds[r.0 as int],
                    pre.builders[k],
                    pre.constraints[k],
                    pre.assembly,
                ),
                out,
            )
            &&& post.builders == pre.builders.update(k, out.0)
            &&& post.constraints == pre.constraints.update(k, out.1)
            &&& post.assembly == out.2
        }
}

/// Whether `post` is `pre` once each manifold of a list has been generated into the slot of the
/// same position, one after the other.
pub open spec fn contacts_generated<M: ContactConstraintModel>(
    inputs: ContactInputs<M>,
    refs: Seq<ManifoldRef>,
    pre: ContactState<M>,
    post: ContactState<M>,
) -> bool
    decreases refs.len(),
{
    if refs.len() == 0 {
        post == pre
    } else {
        exists|mid: ContactState<M>|
            {
                &&& contacts_generated(inputs, refs.drop_last(), pre, mid)
                &&& #[trigger] contact_generated(
                    inputs,
                    refs.len() - 1,
                    refs.last(),
                    mid,
                    post,
                )
            }
    }
}

proof fn lemma_contacts_generated_push<M: ContactConstraintModel>(
    inputs: ContactInputs<M>,
    refs: Seq<ManifoldRef>,
    r: ManifoldRef,
    pre: ContactState<M>,
    mid: ContactState<M>,
    post: ContactState<M>,
)
    requires
        contacts_generated(inputs, refs, pre, mid),
        contact_generated(inputs, refs.len() as int, r, mid, post),
    ensures
        contacts_generated(inputs, refs.push(r), pre, post),
{
    let all = refs.push(r);
    assert(all.drop_last() == refs);
    assert(contact_generated(inputs, all.len() - 1, all.last(), mid, post));
}

/// The contact constraints of an island that touch a multibody, and the builders that they are
/// derived by.
pub struct ContactConstraintsSet<M: ContactConstraintModel> {
    pub generic_jacobians: Vec<M::Real>,
    pub generic_velocity_constraints: Vec<M::GenericContactConstraint>,
    pub generic_velocity_constraints_builder: Vec<M::GenericContactConstraintBuilder>,
}

impl<M: ContactConstraintModel> ContactConstraintsSet<M> {
    /// What the generation of `n` constraints starts from.
    pub open spec fn generation_start(
        &self,
        n: nat,
        builder: M::GenericContactConstraintBuilder,
        constraint: M::GenericContactConstraint,
        jacobian_id: usize,
    ) -> ContactState<M> {
        ContactState {
            builders: resized(self.generic_velocity_constraints_builder@, n, builder),
            constraints: resized(self.generic_velocity_constraints@, n, constraint),
            assembly: ContactAssembly { jacobians: self.generic_jacobians, jacobian_id },
        }
    }

    /// What the generation of constraints has led to.
    pub open spec fn generation_end(&self, jacobian_id: usize) -> ContactState<M> {
        ContactState {
            builders: self.generic_velocity_constraints_builder@,
            constraints: self.generic_velocity_constraints@,
            assembly: ContactAssembly { jacobians: self.generic_jacobians, jacobian_id },
        }
    }

    /// Whether this set is the set `before` once a constraint has been generated for each
    /// manifold of a list, in order.
    pub open spec fn generated_from(
        &self,
        before: &Self,
        inputs: ContactInputs<M>,
        refs: Seq<ManifoldRef>,
        jacobian_id: usize,
        jacobian_id_after: usize,
    ) -> bool {
        exists|
            builder: M::GenericContactConstraintBuilder,
            constraint: M::GenericContactConstraint,
        |
            {
                &&& #[trigger] call_ensures(M::invalid_contact_builder, (), builder)
                &&& #[trigger] call_ensures(M::invalid_contact_constraint, (), constraint)
                &&& contacts_generated(
                    inputs,
                    refs,
                    before.generation_start(refs.len(), builder, constraint, jacobian_id),
                    self.generation_end(jacobian_id_after),
                )
            }
    }

    /// Builds the contact constraints that touch a multibody.
    pub fn compute_generic_constraints(
        &mut self,
        world: &M,
        multibodies: &MultibodyJointSet<M::Real>,
        graph: &SolverContactGraph,
        store: &ManifoldStore<M::Manifold>,
        jacobian_id: &mut usize,
    )
        requires
            forall|k: int|
                0 <= k < graph.generic_manifolds@.len() ==> store.contains(
                    #[trigger] graph.generic_manifolds@[k],
                ),
        ensures
            final(self).generated_from(
                old(self),
                (ContactInputs {
                    world: *world,
                    multibodies: *multibodies,
                    manifolds: store.manifolds@,
                }),
                graph.generic_manifolds@,
                *old(jacobian_id),
                *final(jacobian_id),
            ),
            final(self).generic_velocity_constraints@.len() == graph.generic_manifolds@.len(),
            final(self).generic_velocity_constraints_builder@.len()
                == graph.generic_manifolds@.len(),
    {
        let ghost inputs = ContactInputs {
            world: *world,
            multibodies: *multibodies,
            manifolds: store.manifolds@,
        };
        let generic = graph.generic();
        let total_num_constraints: usize = generic.len();
        let invalid_builder = M::invalid_contact_builder();
        let invalid_constraint = M::invalid_contact_constraint();
        let ghost start = self.generation_start(
            total_num_constraints as nat,
            invalid_builder,
            invalid_constraint,
            *jacobian_id,
        );
        resize(
            &mut self.generic_velocity_constraints_builder,
            total_num_constraints,
            invalid_builder,
        );
        resize(
            &mut self.generic_velocity_constraints,
            total_num_constraints,
            invalid_constraint,
        );
        let mut jacobians: Vec<M::Real> = Vec::new();
        core::mem::swap(&mut jacobians, &mut self.generic_jacobians);
        let mut assembly = ContactAssembly { jacobians, jacobian_id: *jacobian_id };

        let mut curr_id: usize = 0;
        while curr_id < total_num_constraints
            invariant
                curr_id <= total_num_constraints,
                total_num_constraints == generic.len(),
                *generic == graph.generic_manifolds,
                forall|k: int|
                    0 <= k < graph.generic_manifolds@.len() ==> store.contains(
                        #[trigger] graph.generic_manifolds@[k],
                    ),
                self.generic_velocity_constraints_builder@.len() == total_num_constraints,
                self.generic_velocity_constraints@.len() == total_num_constraints,
                inputs == (ContactInputs {
                    world: *world,
                    multibodies: *multibodies,
                    manifolds: store.manifolds@,
                }),
                contacts_generated(
                    inputs,
                    generic@.take(curr_id as int),
                    start,
                    (ContactState {
                        builders: self.generic_velocity_constraints_builder@,
                        constraints: self.generic_velocity_constraints@,
                        assembly,
                    }),
                ),
            decreases total_num_constraints - curr_id,
        {
            let ghost mid = ContactState {
                builders: self.generic_velocity_constraints_builder@,
                constraints: self.generic_velocity_constraints@,
                assembly,
            };
            let r = generic[curr_id];
            let manifold = store.get(r);
            let (builder, constraint, progress) = world.generate_contact(
                multibodies,
                r,
                manifold,
                self.generic_velocity_constraints_builder[curr_id],
                self.generic_velocity_constraints[curr_id],
                assembly,
            );
            self.generic_velocity_constraints_builder.set(curr_id, builder);
            self.generic_velocity_constraints.set(curr_id, constraint);
            assembly = progress;
            proof {
                let post = ContactState {
                    builders: self.generic_velocity_constraints_builder@,
                    constraints: self.generic_velocity_constraints@,
                    assembly,
                };
                let seen = generic@.take(curr_id as int);
                assert(contact_generated(inputs, seen.len() as int, r, mid, post));
                lemma_contacts_generated_push(inputs, seen, r, start, mid, post);
                assert(seen.push(r) == generic@.take(curr_id + 1));
            }
            curr_id += 1;
        }
        assert(generic@.take(curr_id as int) == generic@);
        *jacobian_id = assembly.jacobian_id;
        self.generic_jacobians = assembly.jacobians;
    }
}

} // verus!
