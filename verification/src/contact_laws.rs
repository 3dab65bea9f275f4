//! What holds of the set of contact constraints as a whole.

use crate::contact_constraints_set::{
    ContactAssembly, ContactConstraintModel, ContactConstraintsSet, ManifoldRef,
};
use crate::multibody::MultibodyJointSet;
use vstd::prelude::*;

verus! {

broadcast use vstd::seq_lib::group_seq_properties;

use crate::ranges::{lemma_chain_push, lemma_chain_tiles, ranges_chain, ranges_tile};
use crate::contact_constraints_set::{
    contact_generated, contacts_generated, ContactInputs, ContactState,
};

/// Whether a builder and a constraint were generated for a manifold.
pub open spec fn generated_for_manifold<M: ContactConstraintModel>(
    inputs: ContactInputs<M>,
    r: ManifoldRef,
    builder_after: M::GenericContactConstraintBuilder,
    constraint_after: M::GenericContactConstraint,
) -> bool {
    exists|
        builder: M::GenericContactConstraintBuilder,
        constraint: M::GenericContactConstraint,
        assembly: ContactAssembly<M::Real>,
        out: (
            M::GenericContactConstraintBuilder,
            M::GenericContactConstraint,
            ContactAssembly<M::Real>,
        ),
    |
        {
            &&& #[trigger] call_ensures(
                M::generate_contact,
                (
                    &inputs.world,
                    &inputs.multibodies,
                    r,
                    &inputs.manifolds[r.0 as int],
                    builder,
                    constraint,
                    assembly,
                ),
                out,
            )
            &&& builder_after == out.0
            &&& constraint_after == out.1
        }
}

/// Contact constraints come in the order of their manifolds: the builder and the constraint at
/// each position were generated for the manifold at that position.
proof fn lemma_contacts_in_order<M: ContactConstraintModel>(
    inputs: ContactInputs<M>,
    refs: Seq<ManifoldRef>,
    pre: ContactState<M>,
    post: ContactState<M>,
)
    requires
        contacts_generated(inputs, refs, pre, post),
        refs.len() <= pre.builders.len(),
        refs.len() <= pre.constraints.len(),
    ensures
        post.builders.len() == pre.builders.len(),
        post.constraints.len() == pre.constraints.len(),
        forall|k: int|
            #![trigger refs[k]]
            0 <= k < refs.len() ==> generated_for_manifold(
                inputs,
                refs[k],
                post.builders[k],
                post.constraints[k],
            ),
        forall|k: int|
            refs.len() <= k < pre.builders.len() ==> #[trigger] post.builders[k]
                == pre.builders[k],
        forall|k: int|
            refs.len() <= k < pre.constraints.len() ==> #[trigger] post.constraints[k]
                == pre.constraints[k],
    decreases refs.len(),
{
    if refs.len() > 0 {
        let front = refs.drop_last();
        let n = refs.len() - 1;
        let mid = choose|mid: ContactState<M>|
            {
                &&& contacts_generated(inputs, front, pre, mid)
                &&& #[trigger] contact_generated(inputs, refs.len() - 1, refs.last(), mid, post)
            };
        lemma_contacts_in_order(inputs, front, pre, mid);
        assert forall|k: int|
            #![trigger refs[k]]
            0 <= k < refs.len() implies generated_for_manifold(
            inputs,
            refs[k],
            post.builders[k],
            post.constraints[k],
        ) by {
            if k < n {
                assert(front[k] == refs[k]);
            } else {
                assert(mid.builders[k] == pre.builders[k]);
                assert(mid.constraints[k] == pre.constraints[k]);
            }
        }
        assert forall|k: int|
            refs.len() <= k < pre.builders.len() implies #[trigger] post.builders[k]
            == pre.builders[k] by {
            assert(mid.builders[k] == pre.builders[k]);
        }
        assert forall|k: int|
            refs.len() <= k < pre.constraints.len() implies #[trigger] post.constraints[k]
            == pre.constraints[k] by {
            assert(mid.constraints[k] == pre.constraints[k]);
        }
    }
}

/// A generated contact set has one builder and one constraint for each manifold, in the order of
/// the manifolds: what stands at each position was generated for the manifold at that position.
pub proof fn law_generated_contacts<M: ContactConstraintModel>(
    before: ContactConstraintsSet<M>,
    after: ContactConstraintsSet<M>,
    inputs: ContactInputs<M>,
    refs: Seq<ManifoldRef>,
    jacobian_id: usize,
    jacobian_id_after: usize,
)
    requires
        after.generated_from(&before, inputs, refs, jacobian_id, jacobian_id_after),
    ensures
        after.generic_velocity_constraints_builder@.len() == refs.len(),
        after.generic_velocity_constraints@.len() == refs.len(),
        forall|k: int|
            #![trigger refs[k]]
            0 <= k < refs.len() ==> generated_for_manifold(
                inputs,
                refs[k],
                after.generic_velocity_constraints_builder@[k],
                after.generic_velocity_constraints@[k],
            ),
{
    let (builder, constraint) = choose|
        builder: M::GenericContactConstraintBuilder,
        constraint: M::GenericContactConstraint,
    |
        {
            &&& #[trigger] call_ensures(M::invalid_contact_builder, (), builder)
            &&& #[trigger] call_ensures(M::invalid_contact_constraint, (), constraint)
            &&& contacts_generated(
                inputs,
                refs,
                before.generation_start(refs.len(), builder, constraint, jacobian_id),
                after.generation_end(jacobian_id_after),
            )
        };
    let start = before.generation_start(refs.len(), builder, constraint, jacobian_id);
    let end = after.generation_end(jacobian_id_after);
    lemma_contacts_in_order(inputs, refs, start, end);
}

/// Whether two assemblies hold the same values.
pub open spec fn same_assembly<R>(a: ContactAssembly<R>, b: ContactAssembly<R>) -> bool {
    a.jacobians@ == b.jacobians@ && a.jacobian_id == b.jacobian_id
}

/// Whether the generation of contact constraints gives the same results on the same values.
pub open spec fn generates_contacts_alike<M: ContactConstraintModel>(
    world: M,
    multibodies: MultibodyJointSet<M::Real>,
) -> bool {
    &&& forall|a: M::GenericContactConstraint, b: M::GenericContactConstraint| #[trigger]
        call_ensures(M::invalid_contact_constraint, (), a) && #[trigger] call_ensures(
            M::invalid_contact_constraint,
            (),
            b,
        ) ==> a == b
    &&& forall|
        a: M::GenericContactConstraintBuilder,
        b: M::GenericContactConstraintBuilder,
    | #[trigger]
        call_ensures(M::invalid_contact_builder, (), a) && #[trigger] call_ensures(
            M::invalid_contact_builder,
            (),
            b,
        ) ==> a == b
    &&& forall|
        r: ManifoldRef,
        manifold: M::Manifold,
        builder: M::GenericContactConstraintBuilder,
        constraint: M::GenericContactConstraint,
        x: ContactAssembly<M::Real>,
        y: ContactAssembly<M::Real>,
        a: (
            M::GenericContactConstraintBuilder,
            M::GenericContactConstraint,
            ContactAssembly<M::Real>,
        ),
        b: (
            M::GenericContactConstraintBuilder,
            M::GenericContactConstraint,
            ContactAssembly<M::Real>,
        ),
    |
        same_assembly(x, y) && #[trigger] call_ensures(
            M::generate_contact,
            (&world, &multibodies, r, &manifold, builder, constraint, x),
            a,
        ) && #[trigger] call_ensures(
            M::generate_contact,
            (&world, &multibodies, r, &manifold, builder, constraint, y),
            b,
        ) ==> a.0 == b.0 && a.1 == b.1 && same_assembly(a.2, b.2)
}

/// Whether two states of the generation hold the same values.
pub open spec fn same_contacts<M: ContactConstraintModel>(
    a: ContactState<M>,
    b: ContactState<M>,
) -> bool {
    &&& a.builders == b.builders
    &&& a.constraints == b.constraints
    &&& same_assembly(a.assembly, b.assembly)
}

/// Whether two lists of manifolds agree on those that are listed.
pub open spec fn same_manifolds<T>(refs: Seq<ManifoldRef>, a: Seq<T>, b: Seq<T>) -> bool {
    forall|k: int|
        0 <= k < refs.len() ==> a[(#[trigger] refs[k]).0 as int] == b[refs[k].0 as int]
}

proof fn lemma_contacts_alike<M: ContactConstraintModel>(
    inputs_a: ContactInputs<M>,
    inputs_b: ContactInputs<M>,
    refs: Seq<ManifoldRef>,
    pre: ContactState<M>,
    post_a: ContactState<M>,
    post_b: ContactState<M>,
)
    requires
        inputs_a.world == inputs_b.world,
        inputs_a.multibodies == inputs_b.multibodies,
        generates_contacts_alike(inputs_a.world, inputs_a.multibodies),
        same_manifolds(refs, inputs_a.manifolds, inputs_b.manifolds),
        contacts_generated(inputs_a, refs, pre, post_a),
        contacts_generated(inputs_b, refs, pre, post_b),
    ensures
        same_contacts(post_a, post_b),
    decreases refs.len(),
{
    if refs.len() > 0 {
        let front = refs.drop_last();
        let n = refs.len() - 1;
        let r = refs[n];
        let mid_a = choose|mid: ContactState<M>|
            {
                &&& contacts_generated(inputs_a, front, pre, mid)
                &&& #[trigger] contact_generated(inputs_a, refs.len() - 1, refs.last(), mid, post_a)
            };
        let mid_b = choose|mid: ContactState<M>|
            {
                &&& contacts_generated(inputs_b, front, pre, mid)
                &&& #[trigger] contact_generated(inputs_b, refs.len() - 1, refs.last(), mid, post_b)
            };
        assert forall|k: int| 0 <= k < front.len() implies inputs_a.manifolds[(
        #[trigger] front[k]).0 as int] == inputs_b.manifolds[front[k].0 as int] by {
            assert(front[k] == refs[k]);
        }
        lemma_contacts_alike(inputs_a, inputs_b, front, pre, mid_a, mid_b);
        assert(inputs_a.manifolds[r.0 as int] == inputs_b.manifolds[r.0 as int]);
    }
}

/// Only the listed manifolds, in their order, have a part in the contact constraints: if
/// generation gives the same results on the same values, whatever else two stores hold, the same
/// builders, constraints and jacobians come out.
pub proof fn law_listed_manifolds_decide<M: ContactConstraintModel>(
    before: ContactConstraintsSet<M>,
    inputs_a: ContactInputs<M>,
    after_a: ContactConstraintsSet<M>,
    inputs_b: ContactInputs<M>,
    after_b: ContactConstraintsSet<M>,
    refs: Seq<ManifoldRef>,
    jacobian_id: usize,
    jacobian_id_a: usize,
    jacobian_id_b: usize,
)
    requires
        inputs_a.world == inputs_b.world,
        inputs_a.multibodies == inputs_b.multibodies,
        generates_contacts_alike(inputs_a.world, inputs_a.multibodies),
        same_manifolds(refs, inputs_a.manifolds, inputs_b.manifolds),
        after_a.generated_from(&before, inputs_a, refs, jacobian_id, jacobian_id_a),
        after_b.generated_from(&before, inputs_b, refs, jacobian_id, jacobian_id_b),
    ensures
        after_a.generic_velocity_constraints_builder@
            == after_b.generic_velocity_constraints_builder@,
        after_a.generic_velocity_constraints@ == after_b.generic_velocity_constraints@,
        after_a.generic_jacobians@ == after_b.generic_jacobians@,
        jacobian_id_a == jacobian_id_b,
{
    let end_a = after_a.generation_end(jacobian_id_a);
    let end_b = after_b.generation_end(jacobian_id_b);
    let (builder, constraint) = choose|
        builder: M::GenericContactConstraintBuilder,
        constraint: M::GenericContactConstraint,
    |
        {
            &&& #[trigger] call_ensures(M::invalid_contact_builder, (), builder)
            &&& #[trigger] call_ensures(M::invalid_contact_constraint, (), constraint)
            &&& contacts_generated(
                inputs_a,
                refs,
                before.generation_start(refs.len(), builder, constraint, jacobian_id),
                end_a,
            )
        };
    let start = before.generation_start(refs.len(), builder, constraint, jacobian_id);
    assert(contacts_generated(inputs_b, refs, start, end_b));
    lemma_contacts_alike(inputs_a, inputs_b, refs, start, end_a, end_b);
}

/// Whether each contact that is generated knows the range of jacobians it has reserved: it starts
/// at the id before, and ends at the id after.
pub open spec fn contacts_know_ranges<M: ContactConstraintModel>(
    inputs: ContactInputs<M>,
    refs: Seq<ManifoldRef>,
    first: spec_fn(
        (M::GenericContactConstraintBuilder, M::GenericContactConstraint),
    ) -> nat,
    count: spec_fn(
        (M::GenericContactConstraintBuilder, M::GenericContactConstraint),
    ) -> nat,
) -> bool {
    forall|
        k: int,
        builder: M::GenericContactConstraintBuilder,
        constraint: M::GenericContactConstraint,
        assembly: ContactAssembly<M::Real>,
        out: (
            M::GenericContactConstraintBuilder,
            M::GenericContactConstraint,
            ContactAssembly<M::Real>,
        ),
    |
        0 <= k < refs.len() && #[trigger] call_ensures(
            M::generate_contact,
            (
                &inputs.world,
                &inputs.multibodies,
                refs[k],
                &inputs.manifolds[refs[k].0 as int],
                builder,
                constraint,
                assembly,
            ),
            out,
        ) ==> {
            &&& first((out.0, out.1)) == assembly.jacobian_id
            &&& first((out.0, out.1)) + count((out.0, out.1)) == out.2.jacobian_id
        }
}

/// The contacts: each builder with its constraint.
pub open spec fn contacts_of<B, C>(builders: Seq<B>, constraints: Seq<C>) -> Seq<(B, C)> {
    Seq::new(builders.len(), |k: int| (builders[k], constraints[k]))
}

proof fn lemma_contact_ranges<M: ContactConstraintModel>(
    inputs: ContactInputs<M>,
    refs: Seq<ManifoldRef>,
    pre: ContactState<M>,
    post: ContactState<M>,
    first: spec_fn(
        (M::GenericContactConstraintBuilder, M::GenericContactConstraint),
    ) -> nat,
    count: spec_fn(
        (M::GenericContactConstraintBuilder, M::GenericContactConstraint),
    ) -> nat,
)
    requires
        contacts_know_ranges(inputs, refs, first, count),
        contacts_generated(inputs, refs, pre, post),
        refs.len() <= pre.builders.len(),
        pre.constraints.len() == pre.builders.len(),
    ensures
        post.builders.len() == pre.builders.len(),
        post.constraints.len() == pre.constraints.len(),
        ranges_chain(
            contacts_of(post.builders, post.constraints).take(refs.len() as int),
            first,
            count,
            pre.assembly.jacobian_id as nat,
            post.assembly.jacobian_id as nat,
        ),
    decreases refs.len(),
{
    if refs.len() > 0 {
        let front = refs.drop_last();
        let n = refs.len() - 1;
        let mid = choose|mid: ContactState<M>|
            {
                &&& contacts_generated(inputs, front, pre, mid)
                &&& #[trigger] contact_generated(inputs, refs.len() - 1, refs.last(), mid, post)
            };
        assert(contacts_know_ranges(inputs, front, first, count)) by {
            assert forall|
                k: int,
                builder: M::GenericContactConstraintBuilder,
                constraint: M::GenericContactConstraint,
                assembly: ContactAssembly<M::Real>,
                out: (
                    M::GenericContactConstraintBuilder,
                    M::GenericContactConstraint,
                    ContactAssembly<M::Real>,
                ),
            |
                0 <= k < front.len() && #[trigger] call_ensures(
                    M::generate_contact,
                    (
                        &inputs.world,
                        &inputs.multibodies,
                        front[k],
                        &inputs.manifolds[front[k].0 as int],
                        builder,
                        constraint,
                        assembly,
                    ),
                    out,
                ) implies {
                &&& first((out.0, out.1)) == assembly.jacobian_id
                &&& first((out.0, out.1)) + count((out.0, out.1)) == out.2.jacobian_id
            } by {
                assert(front[k] == refs[k]);
            }
        }
        lemma_contact_ranges(inputs, front, pre, mid, first, count);
        let r = refs[n];
        let out = choose|
            out: (
                M::GenericContactConstraintBuilder,
                M::GenericContactConstraint,
                ContactAssembly<M::Real>,
            ),
        |
            {
                &&& #[trigger] call_ensures(
                    M::generate_contact,
                    (
                        &inputs.world,
                        &inputs.multibodies,
                        r,
                        &inputs.manifolds[r.0 as int],
                        mid.builders[n],
                        mid.constraints[n],
                        mid.assembly,
                    ),
                    out,
                )
                &&& post.builders == mid.builders.update(n, out.0)
                &&& post.constraints == mid.constraints.update(n, out.1)
                &&& post.assembly == out.2
            };
        assert(call_ensures(
            M::generate_contact,
            (
                &inputs.world,
                &inputs.multibodies,
                refs[n],
                &inputs.manifolds[refs[n].0 as int],
                mid.builders[n],
                mid.constraints[n],
                mid.assembly,
            ),
            out,
        ));
        let contacts = contacts_of(mid.builders, mid.constraints);
        lemma_chain_push(
            contacts,
            n,
            (out.0, out.1),
            first,
            count,
            pre.assembly.jacobian_id as nat,
        );
        assert(contacts_of(post.builders, post.constraints) == contacts.update(
            n,
            (out.0, out.1),
        ));
    }
}

/// The ranges of jacobians of the contacts, in the order of the manifolds, start at the id before,
/// are contiguous and disjoint, and end at the id after. Without contacts the id stays.
pub proof fn law_contact_jacobian_ranges<M: ContactConstraintModel>(
    before: ContactConstraintsSet<M>,
    after: ContactConstraintsSet<M>,
    inputs: ContactInputs<M>,
    refs: Seq<ManifoldRef>,
    jacobian_id: usize,
    jacobian_id_after: usize,
    first: spec_fn(
        (M::GenericContactConstraintBuilder, M::GenericContactConstraint),
    ) -> nat,
    count: spec_fn(
        (M::GenericContactConstraintBuilder, M::GenericContactConstraint),
    ) -> nat,
)
    requires
        contacts_know_ranges(inputs, refs, first, count),
        after.generated_from(&before, inputs, refs, jacobian_id, jacobian_id_after),
    ensures
        ranges_tile(
            contacts_of(
                after.generic_velocity_constraints_builder@,
                after.generic_velocity_constraints@,
            ),
            first,
            count,
            jacobian_id as nat,
            jacobian_id_after as nat,
        ),
{
    let (builder, constraint) = choose|
        builder: M::GenericContactConstraintBuilder,
        constraint: M::GenericContactConstraint,
    |
        {
            &&& #[trigger] call_ensures(M::invalid_contact_builder, (), builder)
            &&& #[trigger] call_ensures(M::invalid_contact_constraint, (), constraint)
            &&& contacts_generated(
                inputs,
                refs,
                before.generation_start(refs.len(), builder, constraint, jacobian_id),
                after.generation_end(jacobian_id_after),
            )
        };
    let start = before.generation_start(refs.len(), builder, constraint, jacobian_id);
    let end = after.generation_end(jacobian_id_after);
    lemma_contact_ranges(inputs, refs, start, end, first, count);
    let contacts = contacts_of(end.builders, end.constraints);
    assert(contacts.take(refs.len() as int) == contacts);
    lemma_chain_tiles(
        contacts,
        first,
        count,
        jacobian_id as nat,
        jacobian_id_after as nat,
    );
}

proof fn lemma_contact_calls<M: ContactConstraintModel>(
    inputs: ContactInputs<M>,
    refs: Seq<ManifoldRef>,
    pre: ContactState<M>,
    post: ContactState<M>,
) -> (assemblies: Seq<ContactAssembly<M::Real>>)
    requires
        contacts_generated(inputs, refs, pre, post),
        refs.len() <= pre.builders.len(),
        refs.len() <= pre.constraints.len(),
    ensures
        post.builders.len() == pre.builders.len(),
        post.constraints.len() == pre.constraints.len(),
        forall|k: int|
            refs.len() <= k < pre.builders.len() ==> #[trigger] post.builders[k]
                == pre.builders[k],
        forall|k: int|
            refs.len() <= k < pre.constraints.len() ==> #[trigger] post.constraints[k]
                == pre.constraints[k],
        assemblies.len() == refs.len() + 1,
        assemblies[0] == pre.assembly,
        assemblies[refs.len() as int] == post.assembly,
        forall|k: int|
            #![trigger refs[k]]
            0 <= k < refs.len() ==> call_ensures(
                M::generate_contact,
                (
                    &inputs.world,
                    &inputs.multibodies,
                    refs[k],
                    &inputs.manifolds[refs[k].0 as int],
                    pre.builders[k],
                    pre.constraints[k],
                    assemblies[k],
                ),
                (post.builders[k], post.constraints[k], assemblies[k + 1]),
            ),
    decreases refs.len(),
{
    if refs.len() == 0 {
        seq![pre.assembly]
    } else {
        let front = refs.drop_last();
        let n = refs.len() - 1;
        let r = refs[n];
        let mid = choose|mid: ContactState<M>|
            {
                &&& contacts_generated(inputs, front, pre, mid)
                &&& #[trigger] contact_generated(inputs, refs.len() - 1, refs.last(), mid, post)
            };
        let before = lemma_contact_calls(inputs, front, pre, mid);
        let out = choose|
            out: (
                M::GenericContactConstraintBuilder,
                M::GenericContactConstraint,
                ContactAssembly<M::Real>,
            ),
        |
            {
                &&& #[trigger] call_ensures(
                    M::generate_contact,
                    (
                        &inputs.world,
                        &inputs.multibodies,
                        r,
                        &inputs.manifolds[r.0 as int],
                        mid.builders[n],
                        mid.constraints[n],
                        mid.assembly,
                    ),
                    out,
                )
                &&& post.builders == mid.builders.update(n, out.0)
                &&& post.constraints == mid.constraints.update(n, out.1)
                &&& post.assembly == out.2
            };
        let assemblies = before.push(post.assembly);
        assert(mid.builders[n] == pre.builders[n]);
        assert(mid.constraints[n] == pre.constraints[n]);
        assert forall|k: int|
            #![trigger refs[k]]
            0 <= k < refs.len() implies call_ensures(
            M::generate_contact,
            (
                &inputs.world,
                &inputs.multibodies,
                refs[k],
                &inputs.manifolds[refs[k].0 as int],
                pre.builders[k],
                pre.constraints[k],
                assemblies[k],
            ),
            (post.builders[k], post.constraints[k], assemblies[k + 1]),
        ) by {
            if k < n {
                assert(front[k] == refs[k]);
                assert(post.builders[k] == mid.builders[k]);
                assert(post.constraints[k] == mid.constraints[k]);
            } else {
                assert((post.builders[k], post.constraints[k], assemblies[k + 1]) == out);
            }
        }
        assert forall|k: int| refs.len() <= k < pre.builders.len() implies
            #[trigger] post.builders[k] == pre.builders[k] by {
            assert(mid.builders[k] == pre.builders[k]);
        }
        assert forall|k: int| refs.len() <= k < pre.constraints.len() implies
            #[trigger] post.constraints[k] == pre.constraints[k] by {
            assert(mid.constraints[k] == pre.constraints[k]);
        }
        assemblies
    }
}

/// Every listed manifold gets one call, and nothing else is called. Returns what was handed from
/// one call to the next, and what stood in the slots that are new. The first call got the
/// jacobians and the id of the set, each of the others got what the call before it left, and what
/// the last one left are the jacobians of the set and the id. The call for a manifold got what
/// stood at its position, and what it made stands there.
pub proof fn law_contact_calls<M: ContactConstraintModel>(
    before: ContactConstraintsSet<M>,
    after: ContactConstraintsSet<M>,
    inputs: ContactInputs<M>,
    refs: Seq<ManifoldRef>,
    jacobian_id: usize,
    jacobian_id_after: usize,
) -> (out: (
    Seq<ContactAssembly<M::Real>>,
    M::GenericContactConstraintBuilder,
    M::GenericContactConstraint,
))
    requires
        after.generated_from(&before, inputs, refs, jacobian_id, jacobian_id_after),
    ensures
        after.generic_velocity_constraints_builder@.len() == refs.len(),
        after.generic_velocity_constraints@.len() == refs.len(),
        call_ensures(M::invalid_contact_builder, (), out.1),
        call_ensures(M::invalid_contact_constraint, (), out.2),
        out.0.len() == refs.len() + 1,
        out.0[0].jacobians == before.generic_jacobians,
        out.0[0].jacobian_id == jacobian_id,
        out.0[refs.len() as int].jacobians == after.generic_jacobians,
        out.0[refs.len() as int].jacobian_id == jacobian_id_after,
        forall|k: int|
            #![trigger refs[k]]
            0 <= k < refs.len() ==> call_ensures(
                M::generate_contact,
                (
                    &inputs.world,
                    &inputs.multibodies,
                    refs[k],
                    &inputs.manifolds[refs[k].0 as int],
                    if k < before.generic_velocity_constraints_builder@.len() {
                        before.generic_velocity_constraints_builder@[k]
                    } else {
                        out.1
                    },
                    if k < before.generic_velocity_constraints@.len() {
                        before.generic_velocity_constraints@[k]
                    } else {
                        out.2
                    },
                    out.0[k],
                ),
                (
                    after.generic_velocity_constraints_builder@[k],
                    after.generic_velocity_constraints@[k],
                    out.0[k + 1],
                ),
            ),
{
    let (builder, constraint) = choose|
        builder: M::GenericContactConstraintBuilder,
        constraint: M::GenericContactConstraint,
    |
        {
            &&& #[trigger] call_ensures(M::invalid_contact_builder, (), builder)
            &&& #[trigger] call_ensures(M::invalid_contact_constraint, (), constraint)
            &&& contacts_generated(
                inputs,
                refs,
                before.generation_start(refs.len(), builder, constraint, jacobian_id),
                after.generation_end(jacobian_id_after),
            )
        };
    let start = before.generation_start(refs.len(), builder, constraint, jacobian_id);
    let end = after.generation_end(jacobian_id_after);
    let assemblies = lemma_contact_calls(inputs, refs, start, end);
    (assemblies, builder, constraint)
}

/// The jacobians are threaded through the calls: whatever relation each call has between the
/// jacobians and the id it is given and those it returns, the jacobians and the id of the set
/// before and those after are linked by a chain of it, over the manifolds in their order. Returns
/// the chain.
pub proof fn law_contact_jacobians_thread<M: ContactConstraintModel>(
    related: spec_fn(ManifoldRef, Seq<M::Real>, usize, Seq<M::Real>, usize) -> bool,
    before: ContactConstraintsSet<M>,
    after: ContactConstraintsSet<M>,
    inputs: ContactInputs<M>,
    refs: Seq<ManifoldRef>,
    jacobian_id: usize,
    jacobian_id_after: usize,
) -> (chain: Seq<(Seq<M::Real>, usize)>)
    requires
        after.generated_from(&before, inputs, refs, jacobian_id, jacobian_id_after),
        forall|
            r: ManifoldRef,
            manifold: M::Manifold,
            builder: M::GenericContactConstraintBuilder,
            constraint: M::GenericContactConstraint,
            assembly: ContactAssembly<M::Real>,
            out: (
                M::GenericContactConstraintBuilder,
                M::GenericContactConstraint,
                ContactAssembly<M::Real>,
            ),
        | #[trigger]
            call_ensures(
                M::generate_contact,
                (
                    &inputs.world,
                    &inputs.multibodies,
                    r,
                    &manifold,
                    builder,
                    constraint,
                    assembly,
                ),
                out,
            ) && manifold == inputs.manifolds[r.0 as int] ==> related(
                r,
                assembly.jacobians@,
                assembly.jacobian_id,
                out.2.jacobians@,
                out.2.jacobian_id,
            ),
    ensures
        chain.len() == refs.len() + 1,
        chain[0] == (before.generic_jacobians@, jacobian_id),
        chain[refs.len() as int] == (after.generic_jacobians@, jacobian_id_after),
        forall|k: int|
            #![trigger refs[k]]
            0 <= k < refs.len() ==> related(
                refs[k],
                chain[k].0,
                chain[k].1,
                chain[k + 1].0,
                chain[k + 1].1,
            ),
{
    let (assemblies, builder, constraint) = law_contact_calls(
        before,
        after,
        inputs,
        refs,
        jacobian_id,
        jacobian_id_after,
    );
    let chain = Seq::new(
        assemblies.len(),
        |k: int| (assemblies[k].jacobians@, assemblies[k].jacobian_id),
    );
    assert forall|k: int|
        #![trigger refs[k]]
        0 <= k < refs.len() implies related(
        refs[k],
        chain[k].0,
        chain[k].1,
        chain[k + 1].0,
        chain[k + 1].1,
    ) by {
        let out = (
            after.generic_velocity_constraints_builder@[k],
            after.generic_velocity_constraints@[k],
            assemblies[k + 1],
        );
        assert(call_ensures(
            M::generate_contact,
            (
                &inputs.world,
                &inputs.multibodies,
                refs[k],
                &inputs.manifolds[refs[k].0 as int],
                if k < before.generic_velocity_constraints_builder@.len() {
                    before.generic_velocity_constraints_builder@[k]
                } else {
                    builder
                },
                if k < before.generic_velocity_constraints@.len() {
                    before.generic_velocity_constraints@[k]
                } else {
                    constraint
                },
                assemblies[k],
            ),
            out,
        ));
    }
    chain
}

/// If each call appends to the jacobians what belongs to its manifold, the set has the jacobians it
/// had before, followed by what belongs to the manifolds, in their order.
pub proof fn law_contact_jacobians_append<M: ContactConstraintModel>(
    appended: spec_fn(ManifoldRef) -> Seq<M::Real>,
    before: ContactConstraintsSet<M>,
    after: ContactConstraintsSet<M>,
    inputs: ContactInputs<M>,
    refs: Seq<ManifoldRef>,
    jacobian_id: usize,
    jacobian_id_after: usize,
)
    requires
        after.generated_from(&before, inputs, refs, jacobian_id, jacobian_id_after),
        forall|
            r: ManifoldRef,
            manifold: M::Manifold,
            builder: M::GenericContactConstraintBuilder,
            constraint: M::GenericContactConstraint,
            assembly: ContactAssembly<M::Real>,
            out: (
                M::GenericContactConstraintBuilder,
                M::GenericContactConstraint,
                ContactAssembly<M::Real>,
            ),
        | #[trigger]
            call_ensures(
                M::generate_contact,
                (
                    &inputs.world,
                    &inputs.multibodies,
                    r,
                    &manifold,
                    builder,
                    constraint,
                    assembly,
                ),
                out,
            ) && manifold == inputs.manifolds[r.0 as int] ==> out.2.jacobians@
                == assembly.jacobians@ + appended(r),
    ensures
        after.generic_jacobians@ == before.generic_jacobians@ + refs.map_values(
            appended,
        ).flatten(),
{
    let related = |
        r: ManifoldRef,
        from: Seq<M::Real>,
        from_id: usize,
        to: Seq<M::Real>,
        to_id: usize,
    | to == from + appended(r);
    let chain = law_contact_jacobians_thread(
        related,
        before,
        after,
        inputs,
        refs,
        jacobian_id,
        jacobian_id_after,
    );
    lemma_appended(appended, before.generic_jacobians@, refs, chain, refs.len() as int);
    assert(refs.take(refs.len() as int) == refs);
    refs.map_values(appended).lemma_flatten_and_flatten_alt_are_equivalent();
}

proof fn lemma_appended<T>(
    appended: spec_fn(ManifoldRef) -> Seq<T>,
    start: Seq<T>,
    refs: Seq<ManifoldRef>,
    chain: Seq<(Seq<T>, usize)>,
    n: int,
)
    requires
        0 <= n <= refs.len(),
        chain.len() == refs.len() + 1,
        chain[0].0 == start,
        forall|k: int|
            #![trigger refs[k]]
            0 <= k < refs.len() ==> chain[k + 1].0 == chain[k].0 + appended(refs[k]),
    ensures
        chain[n].0 == start + refs.take(n).map_values(appended).flatten_alt(),
    decreases n,
{
    let parts = refs.take(n).map_values(appended);
    if n == 0 {
        assert(parts.flatten_alt() == Seq::<T>::empty());
        assert(chain[0].0 =~= start + parts.flatten_alt());
    } else {
        lemma_appended(appended, start, refs, chain, n - 1);
        assert(parts.drop_last() == refs.take(n - 1).map_values(appended));
        assert(parts.last() == appended(refs[n - 1]));
        assert(chain[n].0 =~= start + parts.flatten_alt());
    }
}

} // verus!
