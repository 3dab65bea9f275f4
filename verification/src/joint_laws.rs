//! What holds of the set of joint constraints as a whole.

use crate::joint_constraints_set::{
    AnyJointConstraint, Builder, Constraint, GenericJointConstraint, GenericJointConstraintBuilder,
    JointAssembly, JointConstraintModel, JointConstraintsSet, JointGraphEdge,
};
use crate::multibody::{MultibodyLinkId, RigidBodyHandle};
use vstd::prelude::*;

verus! {

broadcast use vstd::seq_lib::group_seq_properties;

use crate::buffers::resized;
use crate::ranges::{lemma_chain_push, lemma_chain_tiles, ranges_chain, ranges_tile};
use crate::joint_constraints_set::{
    builder_updated, builders_updated, external_generated, externals_generated,
    impulses_of, internal_builders_counted, internal_generated, internals_generated,
    with_impulses, CoupledState, CouplingInputs, GenerationInputs, GenerationState,
};

/// The states that a generation passes through.
pub struct Generation<M: JointConstraintModel> {
    /// The number of links whose joints need constraints.
    pub num_internal: nat,
    /// What the generation starts from.
    pub start: GenerationState<M>,
    /// The state once the builders of the interactions have been generated.
    pub externals: GenerationState<M>,
    /// The state once all the builders have been generated.
    pub all: GenerationState<M>,
    /// What stands in the slots of constraints that are new.
    pub invalid: Constraint<M>,
}

/// Whether a generation led from one set to another.
pub open spec fn generates<M: JointConstraintModel>(
    generation: Generation<M>,
    before: JointConstraintsSet<M>,
    after: JointConstraintsSet<M>,
    inputs: GenerationInputs<M>,
    island: Seq<RigidBodyHandle>,
    j_id: usize,
    j_id_after: usize,
) -> bool {
    let joint_ids = before.generic_two_body_interactions@;
    &&& internal_builders_counted(inputs, island, generation.num_internal)
    &&& generation.start == before.generation_start(
        joint_ids.len() + generation.num_internal,
        j_id,
    )
    &&& externals_generated(inputs, joint_ids, generation.start, generation.externals)
    &&& internals_generated(inputs, island, generation.externals, generation.all)
    &&& after.generic_velocity_constraints_builder@ == generation.all.builders
    &&& after.generic_jacobians == generation.all.assembly.jacobians
    &&& j_id_after == generation.all.assembly.j_id
    &&& call_ensures(M::invalid_joint_constraint, (), generation.invalid)
    &&& after.generic_velocity_constraints@ == resized(
        before.generic_velocity_constraints@,
        generation.all.assembly.num_constraints as nat,
        generation.invalid,
    )
}

/// A generated set comes from a generation.
proof fn lemma_generation<M: JointConstraintModel>(
    before: JointConstraintsSet<M>,
    after: JointConstraintsSet<M>,
    inputs: GenerationInputs<M>,
    island: Seq<RigidBodyHandle>,
    j_id: usize,
    j_id_after: usize,
) -> (generation: Generation<M>)
    requires
        after.generated_from(&before, inputs, island, j_id, j_id_after),
    ensures
        generates(generation, before, after, inputs, island, j_id, j_id_after),
{
    let joint_ids = before.generic_two_body_interactions@;
    let (num_internal, externals, all, invalid) = choose|
        num_internal: nat,
        externals: GenerationState<M>,
        all: GenerationState<M>,
        invalid: Constraint<M>,
    |
        {
            &&& #[trigger] internal_builders_counted(inputs, island, num_internal)
            &&& externals_generated(
                inputs,
                joint_ids,
                before.generation_start(joint_ids.len() + num_internal, j_id),
                externals,
            )
            &&& #[trigger] internals_generated(inputs, island, externals, all)
            &&& after.generic_velocity_constraints_builder@ == all.builders
            &&& after.generic_jacobians == all.assembly.jacobians
            &&& j_id_after == all.assembly.j_id
            &&& #[trigger] call_ensures(M::invalid_joint_constraint, (), invalid)
            &&& after.generic_velocity_constraints@ == resized(
                before.generic_velocity_constraints@,
                all.assembly.num_constraints as nat,
                invalid,
            )
        };
    let start = before.generation_start(joint_ids.len() + num_internal, j_id);
    Generation { num_internal, start, externals, all, invalid }
}

/// Whether a builder was generated for the joint of an interaction, from what its slot held
/// before.
pub open spec fn generated_for_joint<M: JointConstraintModel>(
    inputs: GenerationInputs<M>,
    joint_id: usize,
    before: Builder<M>,
    after: Builder<M>,
) -> bool {
    exists|assembly: JointAssembly<M::Real>, out: (Builder<M>, JointAssembly<M::Real>)|
        {
            &&& #[trigger] call_ensures(
                M::generate_external,
                (
                    &inputs.world,
                    &inputs.multibodies,
                    joint_id,
                    &inputs.joints[joint_id as int].weight,
                    before,
                    assembly,
                ),
                out,
            )
            &&& after == out.0
        }
}

/// The builders of the interactions take the slots from the first free one on, in the order of
/// the interactions. No other slot changes.
proof fn lemma_external_builders<M: JointConstraintModel>(
    inputs: GenerationInputs<M>,
    joint_ids: Seq<usize>,
    pre: GenerationState<M>,
    post: GenerationState<M>,
)
    requires
        externals_generated(inputs, joint_ids, pre, post),
        pre.next + joint_ids.len() <= pre.builders.len(),
    ensures
        post.builders.len() == pre.builders.len(),
        post.next == pre.next + joint_ids.len(),
        forall|i: int|
            0 <= i < pre.builders.len() && !(pre.next <= i < post.next)
                ==> #[trigger] post.builders[i] == pre.builders[i],
        forall|i: int|
            pre.next <= i < post.next ==> generated_for_joint(
                inputs,
                joint_ids[i - pre.next],
                pre.builders[i],
                #[trigger] post.builders[i],
            ),
    decreases joint_ids.len(),
{
    if joint_ids.len() > 0 {
        let front = joint_ids.drop_last();
        let mid = choose|mid: GenerationState<M>|
            {
                &&& externals_generated(inputs, front, pre, mid)
                &&& #[trigger] external_generated(inputs, joint_ids.last(), mid, post)
            };
        lemma_external_builders(inputs, front, pre, mid);
        assert forall|i: int| pre.next <= i < post.next implies generated_for_joint(
            inputs,
            joint_ids[i - pre.next],
            pre.builders[i],
            #[trigger] post.builders[i],
        ) by {
            if i < mid.next {
                assert(generated_for_joint(
                    inputs,
                    front[i - pre.next],
                    pre.builders[i],
                    mid.builders[i],
                ));
            } else {
                assert(mid.builders[i] == pre.builders[i]);
            }
        }
        assert forall|i: int|
            0 <= i < pre.builders.len() && !(pre.next <= i
                < post.next) implies #[trigger] post.builders[i] == pre.builders[i] by {
            assert(mid.builders[i] == pre.builders[i]);
        }
    }
}

/// The builders of the joints of links come after what was generated before them, and leave it
/// alone. They never run out of the slots.
proof fn lemma_internal_builders<M: JointConstraintModel>(
    inputs: GenerationInputs<M>,
    island: Seq<RigidBodyHandle>,
    pre: GenerationState<M>,
    post: GenerationState<M>,
)
    requires
        internals_generated(inputs, island, pre, post),
        pre.next <= pre.builders.len(),
    ensures
        post.builders.len() == pre.builders.len(),
        pre.next <= post.next <= post.builders.len(),
        post.next <= pre.next + island.len(),
        forall|i: int| 0 <= i < pre.next ==> #[trigger] post.builders[i] == pre.builders[i],
        forall|i: int|
            post.next < i < pre.builders.len() ==> #[trigger] post.builders[i] == pre.builders[i],
    decreases island.len(),
{
    if island.len() > 0 {
        let front = island.drop_last();
        let mid = choose|mid: GenerationState<M>|
            {
                &&& internals_generated(inputs, front, pre, mid)
                &&& #[trigger] internal_generated(inputs, island.last(), mid, post)
            };
        lemma_internal_builders(inputs, front, pre, mid);
        assert forall|i: int| 0 <= i < pre.next implies #[trigger] post.builders[i]
            == pre.builders[i] by {
            assert(mid.builders[i] == pre.builders[i]);
        }
        assert forall|i: int|
            post.next < i < pre.builders.len() implies #[trigger] post.builders[i]
            == pre.builders[i] by {
            assert(mid.builders[i] == pre.builders[i]);
        }
    }
}

/// A generated set has one builder for each interaction and one for each body that is a link
/// whose joint needs constraints. Those of the interactions come first: the builder of
/// interaction `k` is builder `k`.
pub proof fn law_generated_interaction_builders<M: JointConstraintModel>(
    before: JointConstraintsSet<M>,
    after: JointConstraintsSet<M>,
    inputs: GenerationInputs<M>,
    island: Seq<RigidBodyHandle>,
    j_id: usize,
    j_id_after: usize,
)
    requires
        after.generated_from(&before, inputs, island, j_id, j_id_after),
    ensures
        exists|num_internal: nat| #[trigger]
            internal_builders_counted(inputs, island, num_internal)
                && after.generic_velocity_constraints_builder@.len()
                == before.generic_two_body_interactions@.len() + num_internal,
        forall|k: int|
            #![trigger before.generic_two_body_interactions@[k]]
            0 <= k < before.generic_two_body_interactions@.len() ==> generated_for_joint(
                inputs,
                before.generic_two_body_interactions@[k],
                resized(
                    before.generic_velocity_constraints_builder@,
                    after.generic_velocity_constraints_builder@.len(),
                    GenericJointConstraintBuilder::Empty,
                )[k],
                after.generic_velocity_constraints_builder@[k],
            ),
{
    let joint_ids = before.generic_two_body_interactions@;
    let generation = lemma_generation(before, after, inputs, island, j_id, j_id_after);
    let start = generation.start;
    let externals = generation.externals;
    let all = generation.all;
    assert(internal_builders_counted(inputs, island, generation.num_internal));
    lemma_external_builders(inputs, joint_ids, start, externals);
    lemma_internal_builders(inputs, island, externals, all);
    assert forall|k: int|
        #![trigger joint_ids[k]]
        0 <= k < joint_ids.len() implies generated_for_joint(
        inputs,
        joint_ids[k],
        start.builders[k],
        all.builders[k],
    ) by {
        assert(all.builders[k] == externals.builders[k]);
    }
}

/// A model that agrees with itself: generation for a link adds constraints just when the link
/// was said to need some.
pub open spec fn counts_agree<M: JointConstraintModel>(
    inputs: GenerationInputs<M>,
    needs: spec_fn(MultibodyLinkId) -> bool,
) -> bool {
    &&& forall|link: MultibodyLinkId, count: usize| #[trigger]
        call_ensures(
            M::num_internal_constraints,
            (&inputs.world, &inputs.multibodies, &link),
            count,
        ) ==> (count > 0 <==> needs(link))
    &&& forall|
        link: MultibodyLinkId,
        builder: Builder<M>,
        assembly: JointAssembly<M::Real>,
        out: (Builder<M>, JointAssembly<M::Real>),
    | #[trigger]
        call_ensures(
            M::generate_internal,
            (&inputs.world, &inputs.multibodies, &link, builder, assembly),
            out,
        ) ==> (out.1.num_constraints != assembly.num_constraints <==> needs(link))
}

/// The links of an island that are in need of constraints, in the order of the island.
pub open spec fn needy_links<M: JointConstraintModel>(
    inputs: GenerationInputs<M>,
    needs: spec_fn(MultibodyLinkId) -> bool,
    island: Seq<RigidBodyHandle>,
) -> Seq<MultibodyLinkId>
    decreases island.len(),
{
    if island.len() == 0 {
        Seq::empty()
    } else {
        let before = needy_links(inputs, needs, island.drop_last());
        match inputs.multibodies.link_of(island.last()) {
            Some(link) => if needs(link) {
                before.push(link)
            } else {
                before
            },
            None => before,
        }
    }
}

/// Whether a builder was generated for the joint of a link.
pub open spec fn generated_for_link<M: JointConstraintModel>(
    inputs: GenerationInputs<M>,
    link: MultibodyLinkId,
    after: Builder<M>,
) -> bool {
    exists|
        before: Builder<M>,
        assembly: JointAssembly<M::Real>,
        out: (Builder<M>, JointAssembly<M::Real>),
    |
        {
            &&& #[trigger] call_ensures(
                M::generate_internal,
                (&inputs.world, &inputs.multibodies, &link, before, assembly),
                out,
            )
            &&& after == out.0
        }
}

proof fn lemma_counted<M: JointConstraintModel>(
    inputs: GenerationInputs<M>,
    needs: spec_fn(MultibodyLinkId) -> bool,
    island: Seq<RigidBodyHandle>,
    n: nat,
)
    requires
        counts_agree(inputs, needs),
        internal_builders_counted(inputs, island, n),
    ensures
        n == needy_links(inputs, needs, island).len(),
    decreases island.len(),
{
    if island.len() > 0 {
        let front = island.drop_last();
        match inputs.multibodies.link_of(island.last()) {
            Some(link) => {
                if needs(link) {
                    lemma_counted(inputs, needs, front, (n - 1) as nat);
                } else {
                    lemma_counted(inputs, needs, front, n);
                }
            },
            None => {
                lemma_counted(inputs, needs, front, n);
            },
        }
    }
}

/// The links in need of constraints take the slots from the first free one on, in the order of
/// the island.
proof fn lemma_slots_of_links<M: JointConstraintModel>(
    inputs: GenerationInputs<M>,
    needs: spec_fn(MultibodyLinkId) -> bool,
    island: Seq<RigidBodyHandle>,
    pre: GenerationState<M>,
    post: GenerationState<M>,
)
    requires
        counts_agree(inputs, needs),
        internals_generated(inputs, island, pre, post),
        pre.next + needy_links(inputs, needs, island).len() <= pre.builders.len(),
    ensures
        post.builders.len() == pre.builders.len(),
        post.next == pre.next + needy_links(inputs, needs, island).len(),
        forall|i: int|
            pre.next <= i < post.next ==> generated_for_link(
                inputs,
                needy_links(inputs, needs, island)[i - pre.next],
                #[trigger] post.builders[i],
            ),
    decreases island.len(),
{
    if island.len() > 0 {
        let front = island.drop_last();
        let mid = choose|mid: GenerationState<M>|
            {
                &&& internals_generated(inputs, front, pre, mid)
                &&& #[trigger] internal_generated(inputs, island.last(), mid, post)
            };
        lemma_slots_of_links(inputs, needs, front, pre, mid);
        let links = needy_links(inputs, needs, island);
        assert forall|i: int| pre.next <= i < post.next implies generated_for_link(
            inputs,
            links[i - pre.next],
            #[trigger] post.builders[i],
        ) by {
            if i < mid.next {
                assert(post.builders[i] == mid.builders[i]);
                assert(links[i - pre.next] == needy_links(inputs, needs, front)[i - pre.next]);
            }
        }
    }
}

/// If the model agrees with itself, no builder that was made room for stays unused: past those of
/// the interactions, the builders are those of the links in need of constraints, in the order of
/// the island.
pub proof fn law_generated_link_builders<M: JointConstraintModel>(
    before: JointConstraintsSet<M>,
    after: JointConstraintsSet<M>,
    inputs: GenerationInputs<M>,
    needs: spec_fn(MultibodyLinkId) -> bool,
    island: Seq<RigidBodyHandle>,
    j_id: usize,
    j_id_after: usize,
)
    requires
        counts_agree(inputs, needs),
        after.generated_from(&before, inputs, island, j_id, j_id_after),
    ensures
        after.generic_velocity_constraints_builder@.len()
            == before.generic_two_body_interactions@.len() + needy_links(
            inputs,
            needs,
            island,
        ).len(),
        forall|i: int|
            before.generic_two_body_interactions@.len() <= i
                < after.generic_velocity_constraints_builder@.len() ==> generated_for_link(
                inputs,
                needy_links(
                    inputs,
                    needs,
                    island,
                )[i - before.generic_two_body_interactions@.len()],
                #[trigger] after.generic_velocity_constraints_builder@[i],
            ),
{
    let joint_ids = before.generic_two_body_interactions@;
    let generation = lemma_generation(before, after, inputs, island, j_id, j_id_after);
    lemma_external_builders(inputs, joint_ids, generation.start, generation.externals);
    lemma_counted(inputs, needs, island, generation.num_internal);
    lemma_slots_of_links(inputs, needs, island, generation.externals, generation.all);
}

/// Whether two builders are of the same kind.
pub open spec fn same_kind<M: JointConstraintModel>(a: Builder<M>, b: Builder<M>) -> bool {
    match (a, b) {
        (
            GenericJointConstraintBuilder::External(_),
            GenericJointConstraintBuilder::External(_),
        ) => true,
        (
            GenericJointConstraintBuilder::Internal(_),
            GenericJointConstraintBuilder::Internal(_),
        ) => true,
        (GenericJointConstraintBuilder::Empty, GenericJointConstraintBuilder::Empty) => true,
        _ => false,
    }
}

/// Deriving constraints anew adds no builder, drops none and changes the kind of none.
pub proof fn law_update_keeps_builders<M: JointConstraintModel>(
    inputs: CouplingInputs<M>,
    n: nat,
    pre: CoupledState<M>,
    post: CoupledState<M>,
)
    requires
        builders_updated(inputs, n, pre, post),
        n <= pre.builders.len(),
    ensures
        post.builders.len() == pre.builders.len(),
        forall|i: int|
            0 <= i < pre.builders.len() ==> same_kind::<M>(
                pre.builders[i],
                #[trigger] post.builders[i],
            ),
        forall|i: int|
            n <= i < pre.builders.len() ==> #[trigger] post.builders[i] == pre.builders[i],
    decreases n,
{
    if n > 0 {
        let mid = choose|mid: CoupledState<M>|
            {
                &&& builders_updated(inputs, (n - 1) as nat, pre, mid)
                &&& #[trigger] builder_updated(inputs, n - 1, mid, post)
            };
        law_update_keeps_builders(inputs, (n - 1) as nat, pre, mid);
        assert forall|i: int| 0 <= i < pre.builders.len() implies same_kind::<M>(
            pre.builders[i],
            #[trigger] post.builders[i],
        ) by {
            assert(same_kind::<M>(pre.builders[i], mid.builders[i]));
        }
        assert forall|i: int|
            n <= i < pre.builders.len() implies #[trigger] post.builders[i]
            == pre.builders[i] by {
            assert(mid.builders[i] == pre.builders[i]);
        }
    }
}

/// A set without constraints has nothing to write back.
pub proof fn law_empty_set_writes_nothing<M: JointConstraintModel>(
    set: JointConstraintsSet<M>,
    joints: Vec<JointGraphEdge<M::Joint>>,
    after: Vec<JointGraphEdge<M::Joint>>,
)
    requires
        set.num_constraints() == 0,
        set.written_back(set.num_constraints(), joints, after),
    ensures
        after == joints,
{
}

/// Whether each builder that is generated knows the range it has reserved: it starts at the cursor
/// before, and ends at the cursor after. For a link that asks for no constraint there is no
/// builder, and nothing is reserved.
pub open spec fn builders_know_ranges<M: JointConstraintModel>(
    inputs: GenerationInputs<M>,
    joint_ids: Seq<usize>,
    cursor: spec_fn(JointAssembly<M::Real>) -> nat,
    first: spec_fn(Builder<M>) -> nat,
    count: spec_fn(Builder<M>) -> nat,
) -> bool {
    &&& forall|
        k: int,
        builder: Builder<M>,
        assembly: JointAssembly<M::Real>,
        out: (Builder<M>, JointAssembly<M::Real>),
    |
        0 <= k < joint_ids.len() && #[trigger] call_ensures(
            M::generate_external,
            (
                &inputs.world,
                &inputs.multibodies,
                joint_ids[k],
                &inputs.joints[joint_ids[k] as int].weight,
                builder,
                assembly,
            ),
            out,
        ) ==> {
            &&& first(out.0) == cursor(assembly)
            &&& first(out.0) + count(out.0) == cursor(out.1)
        }
    &&& forall|
        link: MultibodyLinkId,
        builder: Builder<M>,
        assembly: JointAssembly<M::Real>,
        out: (Builder<M>, JointAssembly<M::Real>),
    |
        #[trigger] call_ensures(
            M::generate_internal,
            (&inputs.world, &inputs.multibodies, &link, builder, assembly),
            out,
        ) ==> if out.1.num_constraints != assembly.num_constraints {
            &&& first(out.0) == cursor(assembly)
            &&& first(out.0) + count(out.0) == cursor(out.1)
        } else {
            cursor(out.1) == cursor(assembly)
        }
}

proof fn lemma_external_ranges<M: JointConstraintModel>(
    inputs: GenerationInputs<M>,
    joint_ids: Seq<usize>,
    pre: GenerationState<M>,
    post: GenerationState<M>,
    cursor: spec_fn(JointAssembly<M::Real>) -> nat,
    first: spec_fn(Builder<M>) -> nat,
    count: spec_fn(Builder<M>) -> nat,
    start: nat,
)
    requires
        builders_know_ranges(inputs, joint_ids, cursor, first, count),
        externals_generated(inputs, joint_ids, pre, post),
        pre.next + joint_ids.len() <= pre.builders.len(),
        ranges_chain(
            pre.builders.take(pre.next as int),
            first,
            count,
            start,
            cursor(pre.assembly),
        ),
    ensures
        post.builders.len() == pre.builders.len(),
        post.next == pre.next + joint_ids.len(),
        ranges_chain(
            post.builders.take(post.next as int),
            first,
            count,
            start,
            cursor(post.assembly),
        ),
    decreases joint_ids.len(),
{
    if joint_ids.len() > 0 {
        let front = joint_ids.drop_last();
        let n = joint_ids.len() - 1;
        let mid = choose|mid: GenerationState<M>|
            {
                &&& externals_generated(inputs, front, pre, mid)
                &&& #[trigger] external_generated(inputs, joint_ids.last(), mid, post)
            };
        assert(builders_know_ranges(inputs, front, cursor, first, count)) by {
            assert forall|
                k: int,
                builder: Builder<M>,
                assembly: JointAssembly<M::Real>,
                out: (Builder<M>, JointAssembly<M::Real>),
            |
                0 <= k < front.len() && #[trigger] call_ensures(
                    M::generate_external,
                    (
                        &inputs.world,
                        &inputs.multibodies,
                        front[k],
                        &inputs.joints[front[k] as int].weight,
                        builder,
                        assembly,
                    ),
                    out,
                ) implies {
                &&& first(out.0) == cursor(assembly)
                &&& first(out.0) + count(out.0) == cursor(out.1)
            } by {
                assert(front[k] == joint_ids[k]);
            }
        }
        lemma_external_ranges(inputs, front, pre, mid, cursor, first, count, start);
        let id = joint_ids[n];
        let out = choose|out: (Builder<M>, JointAssembly<M::Real>)|
            {
                &&& #[trigger] call_ensures(
                    M::generate_external,
                    (
                        &inputs.world,
                        &inputs.multibodies,
                        id,
                        &inputs.joints[id as int].weight,
                        mid.builders[mid.next as int],
                        mid.assembly,
                    ),
                    out,
                )
                &&& post.builders == mid.builders.update(mid.next as int, out.0)
                &&& post.assembly == out.1
                &&& post.next == mid.next + 1
            };
        assert(call_ensures(
            M::generate_external,
            (
                &inputs.world,
                &inputs.multibodies,
                joint_ids[n],
                &inputs.joints[joint_ids[n] as int].weight,
                mid.builders[mid.next as int],
                mid.assembly,
            ),
            out,
        ));
        lemma_chain_push(mid.builders, mid.next as int, out.0, first, count, start);
    }
}

proof fn lemma_internal_ranges<M: JointConstraintModel>(
    inputs: GenerationInputs<M>,
    joint_ids: Seq<usize>,
    island: Seq<RigidBodyHandle>,
    pre: GenerationState<M>,
    post: GenerationState<M>,
    cursor: spec_fn(JointAssembly<M::Real>) -> nat,
    first: spec_fn(Builder<M>) -> nat,
    count: spec_fn(Builder<M>) -> nat,
    start: nat,
)
    requires
        builders_know_ranges(inputs, joint_ids, cursor, first, count),
        internals_generated(inputs, island, pre, post),
        pre.next <= pre.builders.len(),
        ranges_chain(
            pre.builders.take(pre.next as int),
            first,
            count,
            start,
            cursor(pre.assembly),
        ),
    ensures
        post.next <= post.builders.len(),
        ranges_chain(
            post.builders.take(post.next as int),
            first,
            count,
            start,
            cursor(post.assembly),
        ),
    decreases island.len(),
{
    if island.len() > 0 {
        let front = island.drop_last();
        let mid = choose|mid: GenerationState<M>|
            {
                &&& internals_generated(inputs, front, pre, mid)
                &&& #[trigger] internal_generated(inputs, island.last(), mid, post)
            };
        lemma_internal_ranges(
            inputs,
            joint_ids,
            front,
            pre,
            mid,
            cursor,
            first,
            count,
            start,
        );
        if inputs.multibodies.link_of(island.last()) is Some && mid.next < mid.builders.len() {
            let link = inputs.multibodies.link_of(island.last())->0;
            let out = choose|out: (Builder<M>, JointAssembly<M::Real>)|
                {
                    &&& #[trigger] call_ensures(
                        M::generate_internal,
                        (
                            &inputs.world,
                            &inputs.multibodies,
                            &link,
                            mid.builders[mid.next as int],
                            mid.assembly,
                        ),
                        out,
                    )
                    &&& post.builders == mid.builders.update(mid.next as int, out.0)
                    &&& post.assembly == out.1
                    &&& post.next == if out.1.num_constraints != mid.assembly.num_constraints {
                        mid.next + 1
                    } else {
                        mid.next
                    }
                };
            if out.1.num_constraints != mid.assembly.num_constraints {
                lemma_chain_push(mid.builders, mid.next as int, out.0, first, count, start);
            } else {
                assert(post.builders.take(post.next as int) == mid.builders.take(
                    mid.next as int,
                ));
            }
        }
    }
}

/// The ranges that builders reserve tile what the cursor has passed over.
proof fn lemma_reserved_ranges<M: JointConstraintModel>(
    before: JointConstraintsSet<M>,
    after: JointConstraintsSet<M>,
    inputs: GenerationInputs<M>,
    needs: spec_fn(MultibodyLinkId) -> bool,
    island: Seq<RigidBodyHandle>,
    j_id: usize,
    j_id_after: usize,
    cursor: spec_fn(JointAssembly<M::Real>) -> nat,
    first: spec_fn(Builder<M>) -> nat,
    count: spec_fn(Builder<M>) -> nat,
) -> (generation: Generation<M>)
    requires
        counts_agree(inputs, needs),
        builders_know_ranges(inputs, before.generic_two_body_interactions@, cursor, first, count),
        after.generated_from(&before, inputs, island, j_id, j_id_after),
    ensures
        generates(generation, before, after, inputs, island, j_id, j_id_after),
        ranges_tile(
            after.generic_velocity_constraints_builder@,
            first,
            count,
            cursor(before.generation_start(0, j_id).assembly),
            cursor(generation.all.assembly),
        ),
{
    let joint_ids = before.generic_two_body_interactions@;
    let generation = lemma_generation(before, after, inputs, island, j_id, j_id_after);
    let start = generation.start;
    let all = generation.all;
    let origin = cursor(start.assembly);
    assert(start.builders.take(0) == Seq::<Builder<M>>::empty());
    lemma_external_ranges(
        inputs,
        joint_ids,
        start,
        generation.externals,
        cursor,
        first,
        count,
        origin,
    );
    lemma_internal_ranges(
        inputs,
        joint_ids,
        island,
        generation.externals,
        all,
        cursor,
        first,
        count,
        origin,
    );
    lemma_counted(inputs, needs, island, generation.num_internal);
    lemma_slots_of_links(inputs, needs, island, generation.externals, all);
    assert(all.builders.take(all.next as int) == all.builders);
    lemma_chain_tiles(all.builders, first, count, origin, cursor(all.assembly));
    generation
}

/// The ranges of constraints of the builders, those of the interactions first, start at zero, are
/// contiguous and disjoint, and together cover all the constraints.
pub proof fn law_constraint_ranges<M: JointConstraintModel>(
    before: JointConstraintsSet<M>,
    after: JointConstraintsSet<M>,
    inputs: GenerationInputs<M>,
    needs: spec_fn(MultibodyLinkId) -> bool,
    island: Seq<RigidBodyHandle>,
    j_id: usize,
    j_id_after: usize,
    first: spec_fn(Builder<M>) -> nat,
    count: spec_fn(Builder<M>) -> nat,
)
    requires
        counts_agree(inputs, needs),
        builders_know_ranges(
            inputs,
            before.generic_two_body_interactions@,
            |assembly: JointAssembly<M::Real>| assembly.num_constraints as nat,
            first,
            count,
        ),
        after.generated_from(&before, inputs, island, j_id, j_id_after),
    ensures
        ranges_tile(
            after.generic_velocity_constraints_builder@,
            first,
            count,
            0,
            after.generic_velocity_constraints@.len(),
        ),
{
    let cursor = |assembly: JointAssembly<M::Real>| assembly.num_constraints as nat;
    let generation = lemma_reserved_ranges(
        before,
        after,
        inputs,
        needs,
        island,
        j_id,
        j_id_after,
        cursor,
        first,
        count,
    );
    assert(cursor(generation.all.assembly) == after.generic_velocity_constraints@.len());
}

/// The ranges of jacobians of the builders, those of the interactions first, start at the id
/// before, are contiguous and disjoint, and end at the id after. Where there is no builder, the id
/// stays.
pub proof fn law_jacobian_ranges<M: JointConstraintModel>(
    before: JointConstraintsSet<M>,
    after: JointConstraintsSet<M>,
    inputs: GenerationInputs<M>,
    needs: spec_fn(MultibodyLinkId) -> bool,
    island: Seq<RigidBodyHandle>,
    j_id: usize,
    j_id_after: usize,
    first: spec_fn(Builder<M>) -> nat,
    count: spec_fn(Builder<M>) -> nat,
)
    requires
        counts_agree(inputs, needs),
        builders_know_ranges(
            inputs,
            before.generic_two_body_interactions@,
            |assembly: JointAssembly<M::Real>| assembly.j_id as nat,
            first,
            count,
        ),
        after.generated_from(&before, inputs, island, j_id, j_id_after),
    ensures
        ranges_tile(
            after.generic_velocity_constraints_builder@,
            first,
            count,
            j_id as nat,
            j_id_after as nat,
        ),
{
    let cursor = |assembly: JointAssembly<M::Real>| assembly.j_id as nat;
    let generation = lemma_reserved_ranges(
        before,
        after,
        inputs,
        needs,
        island,
        j_id,
        j_id_after,
        cursor,
        first,
        count,
    );
    assert(cursor(generation.all.assembly) == j_id_after);
}

/// Whether two assemblies hold the same values.
pub open spec fn same_assembly<R>(a: JointAssembly<R>, b: JointAssembly<R>) -> bool {
    &&& a.jacobians@ == b.jacobians@
    &&& a.j_id == b.j_id
    &&& a.num_constraints == b.num_constraints
}

/// Whether two states of the generation hold the same values.
pub open spec fn same_generation<M: JointConstraintModel>(
    a: GenerationState<M>,
    b: GenerationState<M>,
) -> bool {
    &&& a.builders == b.builders
    &&& same_assembly(a.assembly, b.assembly)
    &&& a.next == b.next
}

/// Whether the generation of joint constraints gives the same results on the same values.
pub open spec fn generates_alike<M: JointConstraintModel>(inputs: GenerationInputs<M>) -> bool {
    &&& forall|a: Constraint<M>, b: Constraint<M>| #[trigger]
        call_ensures(M::invalid_joint_constraint, (), a) && #[trigger] call_ensures(
            M::invalid_joint_constraint,
            (),
            b,
        ) ==> a == b
    &&& forall|
        id: usize,
        joint: M::Joint,
        builder: Builder<M>,
        x: JointAssembly<M::Real>,
        y: JointAssembly<M::Real>,
        a: (Builder<M>, JointAssembly<M::Real>),
        b: (Builder<M>, JointAssembly<M::Real>),
    |
        same_assembly(x, y) && #[trigger] call_ensures(
            M::generate_external,
            (&inputs.world, &inputs.multibodies, id, &joint, builder, x),
            a,
        ) && #[trigger] call_ensures(
            M::generate_external,
            (&inputs.world, &inputs.multibodies, id, &joint, builder, y),
            b,
        ) ==> a.0 == b.0 && same_assembly(a.1, b.1)
    &&& forall|
        link: MultibodyLinkId,
        builder: Builder<M>,
        x: JointAssembly<M::Real>,
        y: JointAssembly<M::Real>,
        a: (Builder<M>, JointAssembly<M::Real>),
        b: (Builder<M>, JointAssembly<M::Real>),
    |
        same_assembly(x, y) && #[trigger] call_ensures(
            M::generate_internal,
            (&inputs.world, &inputs.multibodies, &link, builder, x),
            a,
        ) && #[trigger] call_ensures(
            M::generate_internal,
            (&inputs.world, &inputs.multibodies, &link, builder, y),
            b,
        ) ==> a.0 == b.0 && same_assembly(a.1, b.1)
}

/// Whether generation does nothing for a link that is in no need of constraints.
pub open spec fn idle_links_add_nothing<M: JointConstraintModel>(
    inputs: GenerationInputs<M>,
    needs: spec_fn(MultibodyLinkId) -> bool,
) -> bool {
    forall|
        link: MultibodyLinkId,
        builder: Builder<M>,
        assembly: JointAssembly<M::Real>,
        out: (Builder<M>, JointAssembly<M::Real>),
    |
        !needs(link) && #[trigger] call_ensures(
            M::generate_internal,
            (&inputs.world, &inputs.multibodies, &link, builder, assembly),
            out,
        ) ==> out.0 == builder && same_assembly(out.1, assembly)
}

/// Whether a body is no link, or a link in no need of constraints.
pub open spec fn is_idle<M: JointConstraintModel>(
    inputs: GenerationInputs<M>,
    needs: spec_fn(MultibodyLinkId) -> bool,
    handle: RigidBodyHandle,
) -> bool {
    inputs.multibodies.link_of(handle) matches Some(link) ==> !needs(link)
}

proof fn lemma_externals_alike<M: JointConstraintModel>(
    inputs: GenerationInputs<M>,
    joint_ids: Seq<usize>,
    pre: GenerationState<M>,
    post_a: GenerationState<M>,
    post_b: GenerationState<M>,
)
    requires
        generates_alike(inputs),
        externals_generated(inputs, joint_ids, pre, post_a),
        externals_generated(inputs, joint_ids, pre, post_b),
    ensures
        same_generation(post_a, post_b),
    decreases joint_ids.len(),
{
    if joint_ids.len() > 0 {
        let front = joint_ids.drop_last();
        let mid_a = choose|mid: GenerationState<M>|
            {
                &&& externals_generated(inputs, front, pre, mid)
                &&& #[trigger] external_generated(inputs, joint_ids.last(), mid, post_a)
            };
        let mid_b = choose|mid: GenerationState<M>|
            {
                &&& externals_generated(inputs, front, pre, mid)
                &&& #[trigger] external_generated(inputs, joint_ids.last(), mid, post_b)
            };
        lemma_externals_alike(inputs, front, pre, mid_a, mid_b);
    }
}

/// A body that is no link, or a link in no need, leaves the generation as it is.
proof fn lemma_idle_step<M: JointConstraintModel>(
    inputs: GenerationInputs<M>,
    needs: spec_fn(MultibodyLinkId) -> bool,
    handle: RigidBodyHandle,
    pre: GenerationState<M>,
    post: GenerationState<M>,
)
    requires
        idle_links_add_nothing(inputs, needs),
        is_idle(inputs, needs, handle),
        internal_generated(inputs, handle, pre, post),
    ensures
        same_generation(pre, post),
{
    if inputs.multibodies.link_of(handle) is Some && pre.next < pre.builders.len() {
        let i = pre.next as int;
        assert(pre.builders.update(i, pre.builders[i]) == pre.builders);
    }
}

/// The joints of two islands with the same links in need lead to the same generation.
proof fn lemma_internals_alike<M: JointConstraintModel>(
    inputs: GenerationInputs<M>,
    needs: spec_fn(MultibodyLinkId) -> bool,
    island_a: Seq<RigidBodyHandle>,
    island_b: Seq<RigidBodyHandle>,
    pre_a: GenerationState<M>,
    pre_b: GenerationState<M>,
    post_a: GenerationState<M>,
    post_b: GenerationState<M>,
)
    requires
        generates_alike(inputs),
        idle_links_add_nothing(inputs, needs),
        needy_links(inputs, needs, island_a) == needy_links(inputs, needs, island_b),
        same_generation(pre_a, pre_b),
        internals_generated(inputs, island_a, pre_a, post_a),
        internals_generated(inputs, island_b, pre_b, post_b),
    ensures
        same_generation(post_a, post_b),
    decreases island_a.len() + island_b.len(),
{
    if island_a.len() > 0 && is_idle(inputs, needs, island_a.last()) {
        let mid = choose|mid: GenerationState<M>|
            {
                &&& internals_generated(inputs, island_a.drop_last(), pre_a, mid)
                &&& #[trigger] internal_generated(inputs, island_a.last(), mid, post_a)
            };
        lemma_idle_step(inputs, needs, island_a.last(), mid, post_a);
        lemma_internals_alike(
            inputs,
            needs,
            island_a.drop_last(),
            island_b,
            pre_a,
            pre_b,
            mid,
            post_b,
        );
    } else if island_b.len() > 0 && is_idle(inputs, needs, island_b.last()) {
        let mid = choose|mid: GenerationState<M>|
            {
                &&& internals_generated(inputs, island_b.drop_last(), pre_b, mid)
                &&& #[trigger] internal_generated(inputs, island_b.last(), mid, post_b)
            };
        lemma_idle_step(inputs, needs, island_b.last(), mid, post_b);
        lemma_internals_alike(
            inputs,
            needs,
            island_a,
            island_b.drop_last(),
            pre_a,
            pre_b,
            post_a,
            mid,
        );
    } else if island_a.len() > 0 && island_b.len() > 0 {
        let links_a = needy_links(inputs, needs, island_a.drop_last());
        let links_b = needy_links(inputs, needs, island_b.drop_last());
        let link_a = inputs.multibodies.link_of(island_a.last())->0;
        let link_b = inputs.multibodies.link_of(island_b.last())->0;
        assert(links_a.push(link_a) == links_b.push(link_b));
        assert(links_a.push(link_a).last() == links_b.push(link_b).last());
        assert(links_a == links_a.push(link_a).drop_last());
        assert(links_b == links_b.push(link_b).drop_last());
        let mid_a = choose|mid: GenerationState<M>|
            {
                &&& internals_generated(inputs, island_a.drop_last(), pre_a, mid)
                &&& #[trigger] internal_generated(inputs, island_a.last(), mid, post_a)
            };
        let mid_b = choose|mid: GenerationState<M>|
            {
                &&& internals_generated(inputs, island_b.drop_last(), pre_b, mid)
                &&& #[trigger] internal_generated(inputs, island_b.last(), mid, post_b)
            };
        lemma_internals_alike(
            inputs,
            needs,
            island_a.drop_last(),
            island_b.drop_last(),
            pre_a,
            pre_b,
            mid_a,
            mid_b,
        );
    } else if island_a.len() > 0 {
        assert(needy_links(inputs, needs, island_a).len() > 0);
    } else if island_b.len() > 0 {
        assert(needy_links(inputs, needs, island_b).len() > 0);
    }
}

/// Only the links in need of constraints, in their order, decide what is generated: two islands
/// with the same ones lead from the same set to the same builders, constraints and jacobians.
pub proof fn law_needy_links_decide<M: JointConstraintModel>(
    before: JointConstraintsSet<M>,
    inputs: GenerationInputs<M>,
    needs: spec_fn(MultibodyLinkId) -> bool,
    j_id: usize,
    island_a: Seq<RigidBodyHandle>,
    after_a: JointConstraintsSet<M>,
    j_id_a: usize,
    island_b: Seq<RigidBodyHandle>,
    after_b: JointConstraintsSet<M>,
    j_id_b: usize,
)
    requires
        counts_agree(inputs, needs),
        generates_alike(inputs),
        idle_links_add_nothing(inputs, needs),
        needy_links(inputs, needs, island_a) == needy_links(inputs, needs, island_b),
        after_a.generated_from(&before, inputs, island_a, j_id, j_id_a),
        after_b.generated_from(&before, inputs, island_b, j_id, j_id_b),
    ensures
        after_a.generic_velocity_constraints_builder@
            == after_b.generic_velocity_constraints_builder@,
        after_a.generic_velocity_constraints@ == after_b.generic_velocity_constraints@,
        after_a.generic_jacobians@ == after_b.generic_jacobians@,
        j_id_a == j_id_b,
{
    let joint_ids = before.generic_two_body_interactions@;
    let a = lemma_generation(before, after_a, inputs, island_a, j_id, j_id_a);
    let b = lemma_generation(before, after_b, inputs, island_b, j_id, j_id_b);
    lemma_counted(inputs, needs, island_a, a.num_internal);
    lemma_counted(inputs, needs, island_b, b.num_internal);
    lemma_externals_alike(inputs, joint_ids, a.start, a.externals, b.externals);
    lemma_internals_alike(
        inputs,
        needs,
        island_a,
        island_b,
        a.externals,
        b.externals,
        a.all,
        b.all,
    );
}

/// A body that is no link, or a link in no need of constraints, can be put into an island or taken
/// out of it without a change to the links in need.
pub proof fn law_idle_bodies_do_not_matter<M: JointConstraintModel>(
    inputs: GenerationInputs<M>,
    needs: spec_fn(MultibodyLinkId) -> bool,
    front: Seq<RigidBodyHandle>,
    handle: RigidBodyHandle,
    back: Seq<RigidBodyHandle>,
)
    requires
        is_idle(inputs, needs, handle),
    ensures
        needy_links(inputs, needs, front + seq![handle] + back) == needy_links(
            inputs,
            needs,
            front + back,
        ),
    decreases back.len(),
{
    let with = front + seq![handle] + back;
    let without = front + back;
    if back.len() == 0 {
        assert(with.drop_last() == front);
        assert(without == front);
    } else {
        assert(with.drop_last() == front + seq![handle] + back.drop_last());
        assert(without.drop_last() == front + back.drop_last());
        law_idle_bodies_do_not_matter(inputs, needs, front, handle, back.drop_last());
    }
}

/// Whether deriving constraints anew adds none and drops none.
pub open spec fn keeps_constraint_count<M: JointConstraintModel>(
    inputs: CouplingInputs<M>,
) -> bool {
    &&& forall|
        builder: M::ExternalBuilder,
        jacobians: Vec<M::Real>,
        constraints: Vec<Constraint<M>>,
        out: (M::ExternalBuilder, Vec<M::Real>, Vec<Constraint<M>>),
    | #[trigger]
        call_ensures(
            M::update_external,
            (
                &inputs.world,
                builder,
                &inputs.params,
                &inputs.multibodies,
                &inputs.solver_bodies,
                jacobians,
                constraints,
            ),
            out,
        ) ==> out.2@.len() == constraints@.len()
    &&& forall|
        builder: M::InternalBuilder,
        jacobians: Vec<M::Real>,
        constraints: Vec<Constraint<M>>,
        out: (M::InternalBuilder, Vec<M::Real>, Vec<Constraint<M>>),
    | #[trigger]
        call_ensures(
            M::update_internal,
            (
                &inputs.world,
                builder,
                &inputs.params,
                &inputs.multibodies,
                jacobians,
                constraints,
            ),
            out,
        ) ==> out.2@.len() == constraints@.len()
}

proof fn lemma_constraint_count<M: JointConstraintModel>(
    inputs: CouplingInputs<M>,
    n: nat,
    pre: CoupledState<M>,
    post: CoupledState<M>,
)
    requires
        keeps_constraint_count(inputs),
        builders_updated(inputs, n, pre, post),
    ensures
        post.constraints@.len() == pre.constraints@.len(),
    decreases n,
{
    if n > 0 {
        let mid = choose|mid: CoupledState<M>|
            {
                &&& builders_updated(inputs, (n - 1) as nat, pre, mid)
                &&& #[trigger] builder_updated(inputs, n - 1, mid, post)
            };
        lemma_constraint_count(inputs, (n - 1) as nat, pre, mid);
    }
}

/// If deriving constraints anew adds none and drops none, their number stays, and every one of
/// them keeps its impulse and its impulse bounds.
pub proof fn law_update_keeps_impulses<M: JointConstraintModel>(
    before: JointConstraintsSet<M>,
    after: JointConstraintsSet<M>,
    inputs: CouplingInputs<M>,
)
    requires
        keeps_constraint_count(inputs),
        after.updated_from(&before, inputs),
    ensures
        after.generic_velocity_constraints@.len() == before.generic_velocity_constraints@.len(),
        impulses_of(after.generic_velocity_constraints@) == impulses_of(
            before.generic_velocity_constraints@,
        ),
{
    let updated = choose|updated: CoupledState<M>|
        {
            &&& #[trigger] builders_updated(
                inputs,
                before.generic_velocity_constraints_builder@.len(),
                before.coupled_state(),
                updated,
            )
            &&& after.generic_velocity_constraints@ == with_impulses(
                updated.constraints@,
                impulses_of(before.generic_velocity_constraints@),
            )
        };
    lemma_constraint_count(
        inputs,
        before.generic_velocity_constraints_builder@.len(),
        before.coupled_state(),
        updated,
    );
}

/// A sequence with some of its elements replaced.
pub open spec fn overwritten<T>(s: Seq<T>, writes: Map<int, T>) -> Seq<T> {
    Seq::new(
        s.len(),
        |i: int|
            if writes.dom().contains(i) {
                writes[i]
            } else {
                s[i]
            },
    )
}

/// Whether deriving the constraints of a builder anew replaces some constraints and some entries
/// of the jacobians, and which ones and by what depends on the builder alone. The builder that it
/// leaves behind would do the same.
pub open spec fn derives_by_overwriting<M: JointConstraintModel>(
    inputs: CouplingInputs<M>,
    constraint_writes: spec_fn(Builder<M>) -> Map<int, Constraint<M>>,
    jacobian_writes: spec_fn(Builder<M>) -> Map<int, M::Real>,
) -> bool {
    &&& forall|
        builder: M::ExternalBuilder,
        jacobians: Vec<M::Real>,
        constraints: Vec<Constraint<M>>,
        out: (M::ExternalBuilder, Vec<M::Real>, Vec<Constraint<M>>),
    | #[trigger]
        call_ensures(
            M::update_external,
            (
                &inputs.world,
                builder,
                &inputs.params,
                &inputs.multibodies,
                &inputs.solver_bodies,
                jacobians,
                constraints,
            ),
            out,
        ) ==> {
            let old_builder = GenericJointConstraintBuilder::External(builder);
            let new_builder = GenericJointConstraintBuilder::External(out.0);
            &&& out.1@ == overwritten(jacobians@, jacobian_writes(old_builder))
            &&& out.2@ == overwritten(constraints@, constraint_writes(old_builder))
            &&& constraint_writes(new_builder) == constraint_writes(old_builder)
            &&& jacobian_writes(new_builder) == jacobian_writes(old_builder)
        }
    &&& forall|
        builder: M::InternalBuilder,
        jacobians: Vec<M::Real>,
        constraints: Vec<Constraint<M>>,
        out: (M::InternalBuilder, Vec<M::Real>, Vec<Constraint<M>>),
    | #[trigger]
        call_ensures(
            M::update_internal,
            (
                &inputs.world,
                builder,
                &inputs.params,
                &inputs.multibodies,
                jacobians,
                constraints,
            ),
            out,
        ) ==> {
            let old_builder = GenericJointConstraintBuilder::Internal(builder);
            let new_builder = GenericJointConstraintBuilder::Internal(out.0);
            &&& out.1@ == overwritten(jacobians@, jacobian_writes(old_builder))
            &&& out.2@ == overwritten(constraints@, constraint_writes(old_builder))
            &&& constraint_writes(new_builder) == constraint_writes(old_builder)
            &&& jacobian_writes(new_builder) == jacobian_writes(old_builder)
        }
}

/// What the last of the first `n` builders that writes to a position writes there, if one does.
pub open spec fn last_write<M: JointConstraintModel, T>(
    builders: Seq<Builder<M>>,
    writes: spec_fn(Builder<M>) -> Map<int, T>,
    n: nat,
    i: int,
) -> Option<T>
    decreases n,
{
    if n == 0 {
        None
    } else if !(builders[n - 1] is Empty) && writes(builders[n - 1]).dom().contains(i) {
        Some(writes(builders[n - 1])[i])
    } else {
        last_write::<M, T>(builders, writes, (n - 1) as nat, i)
    }
}

/// A sequence once the first `n` builders have written to it.
pub open spec fn all_written<M: JointConstraintModel, T>(
    s: Seq<T>,
    builders: Seq<Builder<M>>,
    writes: spec_fn(Builder<M>) -> Map<int, T>,
    n: nat,
) -> Seq<T> {
    Seq::new(
        s.len(),
        |i: int|
            match last_write::<M, T>(builders, writes, n, i) {
                Some(value) => value,
                None => s[i],
            },
    )
}

proof fn lemma_all_written<M: JointConstraintModel>(
    inputs: CouplingInputs<M>,
    constraint_writes: spec_fn(Builder<M>) -> Map<int, Constraint<M>>,
    jacobian_writes: spec_fn(Builder<M>) -> Map<int, M::Real>,
    n: nat,
    pre: CoupledState<M>,
    post: CoupledState<M>,
)
    requires
        derives_by_overwriting(inputs, constraint_writes, jacobian_writes),
        builders_updated(inputs, n, pre, post),
        n <= pre.builders.len(),
    ensures
        post.constraints@ == all_written::<M, Constraint<M>>(
            pre.constraints@,
            pre.builders,
            constraint_writes,
            n,
        ),
        post.jacobians@ == all_written::<M, M::Real>(
            pre.jacobians@,
            pre.builders,
            jacobian_writes,
            n,
        ),
        forall|i: int|
            #![trigger post.builders[i]]
            0 <= i < pre.builders.len() && !(pre.builders[i] is Empty) ==> {
                &&& constraint_writes(post.builders[i]) == constraint_writes(pre.builders[i])
                &&& jacobian_writes(post.builders[i]) == jacobian_writes(pre.builders[i])
            },
    decreases n,
{
    if n > 0 {
        let m = (n - 1) as nat;
        let mid = choose|mid: CoupledState<M>|
            {
                &&& builders_updated(inputs, m, pre, mid)
                &&& #[trigger] builder_updated(inputs, n - 1, mid, post)
            };
        lemma_all_written(inputs, constraint_writes, jacobian_writes, m, pre, mid);
        law_update_keeps_builders(inputs, m, pre, mid);
        let k = n - 1;
        assert(mid.builders[k] == pre.builders[k]);
        assert(post.constraints@ =~= all_written::<M, Constraint<M>>(
            pre.constraints@,
            pre.builders,
            constraint_writes,
            n,
        ));
        assert(post.jacobians@ =~= all_written::<M, M::Real>(
            pre.jacobians@,
            pre.builders,
            jacobian_writes,
            n,
        ));
        assert forall|i: int|
            #![trigger post.builders[i]]
            0 <= i < pre.builders.len() && !(pre.builders[i] is Empty) implies {
            &&& constraint_writes(post.builders[i]) == constraint_writes(pre.builders[i])
            &&& jacobian_writes(post.builders[i]) == jacobian_writes(pre.builders[i])
        } by {
            if i != k {
                assert(post.builders[i] == mid.builders[i]);
            }
        }
    }
}

proof fn lemma_same_writes<M: JointConstraintModel, T>(
    a: Seq<Builder<M>>,
    b: Seq<Builder<M>>,
    writes: spec_fn(Builder<M>) -> Map<int, T>,
    n: nat,
    i: int,
)
    requires
        n <= a.len(),
        a.len() == b.len(),
        forall|j: int| 0 <= j < a.len() ==> same_kind::<M>(a[j], #[trigger] b[j]),
        forall|j: int|
            #![trigger b[j]]
            0 <= j < a.len() && !(a[j] is Empty) ==> writes(b[j]) == writes(a[j]),
    ensures
        last_write::<M, T>(a, writes, n, i) == last_write::<M, T>(b, writes, n, i),
    decreases n,
{
    if n > 0 {
        lemma_same_writes::<M, T>(a, b, writes, (n - 1) as nat, i);
        assert(same_kind::<M>(a[n - 1], b[n - 1]));
    }
}

/// Deriving the constraints anew a second time, from the same inputs, changes nothing, if what
/// each builder writes depends on the inputs and the builder alone.
pub proof fn law_update_twice<M: JointConstraintModel>(
    inputs: CouplingInputs<M>,
    constraint_writes: spec_fn(Builder<M>) -> Map<int, Constraint<M>>,
    jacobian_writes: spec_fn(Builder<M>) -> Map<int, M::Real>,
    before: JointConstraintsSet<M>,
    once: JointConstraintsSet<M>,
    twice: JointConstraintsSet<M>,
)
    requires
        derives_by_overwriting(inputs, constraint_writes, jacobian_writes),
        once.updated_from(&before, inputs),
        twice.updated_from(&once, inputs),
    ensures
        twice.generic_jacobians@ == once.generic_jacobians@,
        twice.generic_velocity_constraints@ == once.generic_velocity_constraints@,
{
    let n = before.generic_velocity_constraints_builder@.len();
    let start = before.coupled_state();
    let first = choose|updated: CoupledState<M>|
        {
            &&& #[trigger] builders_updated(inputs, n, start, updated)
            &&& once.generic_velocity_constraints_builder@ == updated.builders
            &&& once.generic_jacobians == updated.jacobians
            &&& once.generic_velocity_constraints@ == with_impulses(
                updated.constraints@,
                impulses_of(before.generic_velocity_constraints@),
            )
        };
    lemma_all_written(inputs, constraint_writes, jacobian_writes, n, start, first);
    law_update_keeps_builders(inputs, n, start, first);
    let again = once.coupled_state();
    let second = choose|updated: CoupledState<M>|
        {
            &&& #[trigger] builders_updated(
                inputs,
                once.generic_velocity_constraints_builder@.len(),
                again,
                updated,
            )
            &&& twice.generic_jacobians == updated.jacobians
            &&& twice.generic_velocity_constraints@ == with_impulses(
                updated.constraints@,
                impulses_of(once.generic_velocity_constraints@),
            )
        };
    lemma_all_written(inputs, constraint_writes, jacobian_writes, n, again, second);
    assert forall|i: int| 0 <= i < once.generic_velocity_constraints@.len() implies
        twice.generic_velocity_constraints@[i] == once.generic_velocity_constraints@[i] by {
        lemma_same_writes::<M, Constraint<M>>(
            start.builders,
            again.builders,
            constraint_writes,
            n,
            i,
        );
    }
    assert(twice.generic_velocity_constraints@ =~= once.generic_velocity_constraints@);
    assert forall|i: int| 0 <= i < once.generic_jacobians@.len() implies
        twice.generic_jacobians@[i] == once.generic_jacobians@[i] by {
        lemma_same_writes::<M, M::Real>(start.builders, again.builders, jacobian_writes, n, i);
    }
    assert(twice.generic_jacobians@ =~= once.generic_jacobians@);
}

/// The rows of constraints, without their impulses and impulse bounds.
pub open spec fn rows_of<R, K>(constraints: Seq<GenericJointConstraint<R, K>>) -> Seq<K> {
    Seq::new(constraints.len(), |i: int| constraints[i].row)
}

/// Whether deriving constraints anew gives the same builder, jacobians and rows on the same ones,
/// whatever the impulses and the impulse bounds are.
pub open spec fn blind_to_impulses<M: JointConstraintModel>(inputs: CouplingInputs<M>) -> bool {
    &&& forall|
        builder: M::ExternalBuilder,
        j: Vec<M::Real>,
        k: Vec<M::Real>,
        c: Vec<Constraint<M>>,
        d: Vec<Constraint<M>>,
        a: (M::ExternalBuilder, Vec<M::Real>, Vec<Constraint<M>>),
        b: (M::ExternalBuilder, Vec<M::Real>, Vec<Constraint<M>>),
    |
        j@ == k@ && rows_of(c@) == rows_of(d@) && #[trigger] call_ensures(
            M::update_external,
            (
                &inputs.world,
                builder,
                &inputs.params,
                &inputs.multibodies,
                &inputs.solver_bodies,
                j,
                c,
            ),
            a,
        ) && #[trigger] call_ensures(
            M::update_external,
            (
                &inputs.world,
                builder,
                &inputs.params,
                &inputs.multibodies,
                &inputs.solver_bodies,
                k,
                d,
            ),
            b,
        ) ==> a.0 == b.0 && a.1@ == b.1@ && rows_of(a.2@) == rows_of(b.2@)
    &&& forall|
        builder: M::InternalBuilder,
        j: Vec<M::Real>,
        k: Vec<M::Real>,
        c: Vec<Constraint<M>>,
        d: Vec<Constraint<M>>,
        a: (M::InternalBuilder, Vec<M::Real>, Vec<Constraint<M>>),
        b: (M::InternalBuilder, Vec<M::Real>, Vec<Constraint<M>>),
    |
        j@ == k@ && rows_of(c@) == rows_of(d@) && #[trigger] call_ensures(
            M::update_internal,
            (&inputs.world, builder, &inputs.params, &inputs.multibodies, j, c),
            a,
        ) && #[trigger] call_ensures(
            M::update_internal,
            (&inputs.world, builder, &inputs.params, &inputs.multibodies, k, d),
            b,
        ) ==> a.0 == b.0 && a.1@ == b.1@ && rows_of(a.2@) == rows_of(b.2@)
}

proof fn lemma_rows_alike<M: JointConstraintModel>(
    inputs: CouplingInputs<M>,
    n: nat,
    pre_a: CoupledState<M>,
    post_a: CoupledState<M>,
    pre_b: CoupledState<M>,
    post_b: CoupledState<M>,
)
    requires
        blind_to_impulses(inputs),
        pre_a.builders == pre_b.builders,
        pre_a.jacobians@ == pre_b.jacobians@,
        rows_of(pre_a.constraints@) == rows_of(pre_b.constraints@),
        builders_updated(inputs, n, pre_a, post_a),
        builders_updated(inputs, n, pre_b, post_b),
    ensures
        post_a.builders == post_b.builders,
        post_a.jacobians@ == post_b.jacobians@,
        rows_of(post_a.constraints@) == rows_of(post_b.constraints@),
    decreases n,
{
    if n > 0 {
        let m = (n - 1) as nat;
        let mid_a = choose|mid: CoupledState<M>|
            {
                &&& builders_updated(inputs, m, pre_a, mid)
                &&& #[trigger] builder_updated(inputs, n - 1, mid, post_a)
            };
        let mid_b = choose|mid: CoupledState<M>|
            {
                &&& builders_updated(inputs, m, pre_b, mid)
                &&& #[trigger] builder_updated(inputs, n - 1, mid, post_b)
            };
        lemma_rows_alike(inputs, m, pre_a, mid_a, pre_b, mid_b);
    }
}

/// Old impulses have no influence on what is derived: two sets that differ in impulses and impulse
/// bounds alone come out with the same builders, jacobians and rows. Each keeps its own impulses.
pub proof fn law_impulses_do_not_matter<M: JointConstraintModel>(
    inputs: CouplingInputs<M>,
    before_a: JointConstraintsSet<M>,
    after_a: JointConstraintsSet<M>,
    before_b: JointConstraintsSet<M>,
    after_b: JointConstraintsSet<M>,
)
    requires
        blind_to_impulses(inputs),
        keeps_constraint_count(inputs),
        before_a.generic_velocity_constraints_builder@
            == before_b.generic_velocity_constraints_builder@,
        before_a.generic_jacobians@ == before_b.generic_jacobians@,
        rows_of(before_a.generic_velocity_constraints@) == rows_of(
            before_b.generic_velocity_constraints@,
        ),
        after_a.updated_from(&before_a, inputs),
        after_b.updated_from(&before_b, inputs),
    ensures
        after_a.generic_velocity_constraints_builder@
            == after_b.generic_velocity_constraints_builder@,
        after_a.generic_jacobians@ == after_b.generic_jacobians@,
        rows_of(after_a.generic_velocity_constraints@) == rows_of(
            after_b.generic_velocity_constraints@,
        ),
        impulses_of(after_a.generic_velocity_constraints@) == impulses_of(
            before_a.generic_velocity_constraints@,
        ),
        impulses_of(after_b.generic_velocity_constraints@) == impulses_of(
            before_b.generic_velocity_constraints@,
        ),
{
    let n = before_a.generic_velocity_constraints_builder@.len();
    let updated_a = choose|updated: CoupledState<M>|
        {
            &&& #[trigger] builders_updated(inputs, n, before_a.coupled_state(), updated)
            &&& after_a.generic_velocity_constraints_builder@ == updated.builders
            &&& after_a.generic_jacobians == updated.jacobians
            &&& after_a.generic_velocity_constraints@ == with_impulses(
                updated.constraints@,
                impulses_of(before_a.generic_velocity_constraints@),
            )
        };
    let updated_b = choose|updated: CoupledState<M>|
        {
            &&& #[trigger] builders_updated(inputs, n, before_b.coupled_state(), updated)
            &&& after_b.generic_velocity_constraints_builder@ == updated.builders
            &&& after_b.generic_jacobians == updated.jacobians
            &&& after_b.generic_velocity_constraints@ == with_impulses(
                updated.constraints@,
                impulses_of(before_b.generic_velocity_constraints@),
            )
        };
    lemma_rows_alike(
        inputs,
        n,
        before_a.coupled_state(),
        updated_a,
        before_b.coupled_state(),
        updated_b,
    );
    assert(rows_of(after_a.generic_velocity_constraints@) == rows_of(updated_a.constraints@));
    assert(rows_of(after_b.generic_velocity_constraints@) == rows_of(updated_b.constraints@));
    law_update_keeps_impulses(before_a, after_a, inputs);
    law_update_keeps_impulses(before_b, after_b, inputs);
}

/// Whether writing an impulse back stores values at places of the joints: `stored` says what
/// constraint `k` stores where, and `put` stores it. Of two stores one after the other, the second
/// one wins.
pub open spec fn stores_impulses<M: JointConstraintModel, V>(
    set: JointConstraintsSet<M>,
    put: spec_fn(Seq<JointGraphEdge<M::Joint>>, Map<int, V>) -> Seq<JointGraphEdge<M::Joint>>,
    stored: spec_fn(int) -> Map<int, V>,
) -> bool {
    &&& forall|
        k: int,
        pre: Vec<JointGraphEdge<M::Joint>>,
        post: Vec<JointGraphEdge<M::Joint>>,
    |
        0 <= k < set.num_constraints() && #[trigger] set.one_written_back(k, pre, post)
            ==> post@ == put(pre@, stored(k))
    &&& forall|
        joints: Seq<JointGraphEdge<M::Joint>>,
        a: Map<int, V>,
        b: Map<int, V>,
    | #[trigger] put(put(joints, a), b) == put(joints, a.union_prefer_right(b))
}

/// What the first `n` constraints store together.
pub open spec fn all_stored<V>(stored: spec_fn(int) -> Map<int, V>, n: nat) -> Map<int, V>
    decreases n,
{
    if n == 0 {
        Map::empty()
    } else {
        all_stored(stored, (n - 1) as nat).union_prefer_right(stored(n - 1))
    }
}

proof fn lemma_all_stored<M: JointConstraintModel, V>(
    set: JointConstraintsSet<M>,
    put: spec_fn(Seq<JointGraphEdge<M::Joint>>, Map<int, V>) -> Seq<JointGraphEdge<M::Joint>>,
    stored: spec_fn(int) -> Map<int, V>,
    n: nat,
    pre: Vec<JointGraphEdge<M::Joint>>,
    post: Vec<JointGraphEdge<M::Joint>>,
)
    requires
        stores_impulses(set, put, stored),
        0 < n <= set.num_constraints(),
        set.written_back(n, pre, post),
    ensures
        post@ == put(pre@, all_stored(stored, n)),
    decreases n,
{
    let m = (n - 1) as nat;
    let mid = choose|mid: Vec<JointGraphEdge<M::Joint>>|
        {
            &&& set.written_back(m, pre, mid)
            &&& #[trigger] set.one_written_back(n - 1, mid, post)
        };
    if m > 0 {
        lemma_all_stored(set, put, stored, m, pre, mid);
    } else {
        assert(Map::<int, V>::empty().union_prefer_right(stored(0)) =~= stored(0));
        assert(all_stored(stored, 0) == Map::<int, V>::empty());
    }
}

/// Writing the impulses back a second time changes nothing, if the model stores them.
pub proof fn law_writeback_twice<M: JointConstraintModel, V>(
    set: JointConstraintsSet<M>,
    put: spec_fn(Seq<JointGraphEdge<M::Joint>>, Map<int, V>) -> Seq<JointGraphEdge<M::Joint>>,
    stored: spec_fn(int) -> Map<int, V>,
    joints: Vec<JointGraphEdge<M::Joint>>,
    once: Vec<JointGraphEdge<M::Joint>>,
    twice: Vec<JointGraphEdge<M::Joint>>,
)
    requires
        stores_impulses(set, put, stored),
        set.written_back(set.num_constraints(), joints, once),
        set.written_back(set.num_constraints(), once, twice),
    ensures
        twice@ == once@,
{
    let n = set.num_constraints();
    if n > 0 {
        lemma_all_stored(set, put, stored, n, joints, once);
        lemma_all_stored(set, put, stored, n, once, twice);
        let all = all_stored(stored, n);
        assert(all.union_prefer_right(all) =~= all);
        assert(put(put(joints@, all), all) == put(joints@, all.union_prefer_right(all)));
    }
}

proof fn lemma_writeback_chain<M: JointConstraintModel>(
    set: JointConstraintsSet<M>,
    n: nat,
    pre: Vec<JointGraphEdge<M::Joint>>,
    post: Vec<JointGraphEdge<M::Joint>>,
) -> (chain: Seq<Vec<JointGraphEdge<M::Joint>>>)
    requires
        set.written_back(n, pre, post),
    ensures
        chain.len() == n + 1,
        chain[0] == pre,
        chain[n as int] == post,
        forall|k: int|
            #![trigger chain[k]]
            0 <= k < n ==> set.one_written_back(k, chain[k], chain[k + 1]),
    decreases n,
{
    if n == 0 {
        seq![pre]
    } else {
        let m = (n - 1) as nat;
        let mid = choose|mid: Vec<JointGraphEdge<M::Joint>>|
            {
                &&& set.written_back(m, pre, mid)
                &&& #[trigger] set.one_written_back(n - 1, mid, post)
            };
        let before = lemma_writeback_chain(set, m, pre, mid);
        let chain = before.push(post);
        assert forall|k: int|
            #![trigger chain[k]]
            0 <= k < n implies set.one_written_back(k, chain[k], chain[k + 1]) by {
            if k < m {
                assert(chain[k] == before[k]);
                assert(chain[k + 1] == before[k + 1]);
            }
        }
        chain
    }
}

/// Every constraint of the set is written back, once: first the generic ones, then those between
/// rigid bodies, then the SIMD ones, each in their order. Returns the joints as they were handed
/// from one call to the next, from those given to those that came out.
pub proof fn law_writeback_calls<M: JointConstraintModel>(
    set: JointConstraintsSet<M>,
    joints: Vec<JointGraphEdge<M::Joint>>,
    after: Vec<JointGraphEdge<M::Joint>>,
) -> (chain: Seq<Vec<JointGraphEdge<M::Joint>>>)
    requires
        set.written_back(set.num_constraints(), joints, after),
    ensures
        ({
            let rigid = set.generic_velocity_constraints@.len() as int;
            let simd = rigid + set.velocity_constraints@.len();
            let end = simd + set.simd_velocity_constraints@.len();
            &&& chain.len() == end + 1
            &&& chain[0] == joints
            &&& chain[end] == after
            &&& forall|k: int|
                #![trigger set.generic_velocity_constraints@[k]]
                0 <= k < set.generic_velocity_constraints@.len() ==> call_ensures(
                    M::writeback_impulses,
                    (AnyJointConstraint::Generic(&set.generic_velocity_constraints@[k]), chain[k]),
                    chain[k + 1],
                )
            &&& forall|k: int|
                #![trigger set.velocity_constraints@[k]]
                0 <= k < set.velocity_constraints@.len() ==> call_ensures(
                    M::writeback_impulses,
                    (AnyJointConstraint::Rigid(&set.velocity_constraints@[k]), chain[rigid + k]),
                    chain[rigid + k + 1],
                )
            &&& forall|k: int|
                #![trigger set.simd_velocity_constraints@[k]]
                0 <= k < set.simd_velocity_constraints@.len() ==> call_ensures(
                    M::writeback_impulses,
                    (
                        AnyJointConstraint::SimdRigid(&set.simd_velocity_constraints@[k]),
                        chain[simd + k],
                    ),
                    chain[simd + k + 1],
                )
        }),
{
    let chain = lemma_writeback_chain(set, set.num_constraints(), joints, after);
    let rigid = set.generic_velocity_constraints@.len() as int;
    let simd = rigid + set.velocity_constraints@.len();
    assert forall|k: int|
        #![trigger set.generic_velocity_constraints@[k]]
        0 <= k < set.generic_velocity_constraints@.len() implies call_ensures(
        M::writeback_impulses,
        (AnyJointConstraint::Generic(&set.generic_velocity_constraints@[k]), chain[k]),
        chain[k + 1],
    ) by {
        assert(set.one_written_back(k, chain[k], chain[k + 1]));
    }
    assert forall|k: int|
        #![trigger set.velocity_constraints@[k]]
        0 <= k < set.velocity_constraints@.len() implies call_ensures(
        M::writeback_impulses,
        (AnyJointConstraint::Rigid(&set.velocity_constraints@[k]), chain[rigid + k]),
        chain[rigid + k + 1],
    ) by {
        assert(set.one_written_back(rigid + k, chain[rigid + k], chain[rigid + k + 1]));
    }
    assert forall|k: int|
        #![trigger set.simd_velocity_constraints@[k]]
        0 <= k < set.simd_velocity_constraints@.len() implies call_ensures(
        M::writeback_impulses,
        (AnyJointConstraint::SimdRigid(&set.simd_velocity_constraints@[k]), chain[simd + k]),
        chain[simd + k + 1],
    ) by {
        assert(set.one_written_back(simd + k, chain[simd + k], chain[simd + k + 1]));
    }
    chain
}

/// Whether a constraint is one of a set.
pub open spec fn held<M: JointConstraintModel>(
    set: JointConstraintsSet<M>,
    constraint: AnyJointConstraint<M>,
) -> bool {
    match constraint {
        AnyJointConstraint::Generic(c) => set.generic_velocity_constraints@.contains(*c),
        AnyJointConstraint::Rigid(c) => set.velocity_constraints@.contains(*c),
        AnyJointConstraint::SimdRigid(c) => set.simd_velocity_constraints@.contains(*c),
    }
}

/// Whether each constraint of a set, when it is written back, is `recorded` in the joints, and the
/// constraints of the set that were recorded before stay so.
pub open spec fn writing_records<'a, M: JointConstraintModel>(
    set: JointConstraintsSet<M>,
    recorded: spec_fn(AnyJointConstraint<'a, M>, Seq<JointGraphEdge<M::Joint>>) -> bool,
) -> bool {
    forall|
        constraint: AnyJointConstraint<'a, M>,
        pre: Vec<JointGraphEdge<M::Joint>>,
        post: Vec<JointGraphEdge<M::Joint>>,
    |
        held(set, constraint) && #[trigger] call_ensures(
            M::writeback_impulses,
            (constraint, pre),
            post,
        ) ==> recorded(constraint, post@) && forall|other: AnyJointConstraint<'a, M>|
            held(set, other) && recorded(other, pre@) ==> #[trigger] recorded(other, post@)
}

/// Once the impulses have been written back, every constraint is recorded in the joints: each of
/// the generic ones, each of those between rigid bodies, and each of the SIMD ones.
pub proof fn law_writeback_covers<'a, M: JointConstraintModel>(
    set: JointConstraintsSet<M>,
    recorded: spec_fn(AnyJointConstraint<'a, M>, Seq<JointGraphEdge<M::Joint>>) -> bool,
    joints: Vec<JointGraphEdge<M::Joint>>,
    after: Vec<JointGraphEdge<M::Joint>>,
)
    requires
        writing_records(set, recorded),
        set.written_back(set.num_constraints(), joints, after),
    ensures
        forall|k: int|
            #![trigger set.generic_velocity_constraints@[k]]
            0 <= k < set.generic_velocity_constraints@.len() ==> recorded(
                AnyJointConstraint::Generic(&set.generic_velocity_constraints@[k]),
                after@,
            ),
        forall|k: int|
            #![trigger set.velocity_constraints@[k]]
            0 <= k < set.velocity_constraints@.len() ==> recorded(
                AnyJointConstraint::Rigid(&set.velocity_constraints@[k]),
                after@,
            ),
        forall|k: int|
            #![trigger set.simd_velocity_constraints@[k]]
            0 <= k < set.simd_velocity_constraints@.len() ==> recorded(
                AnyJointConstraint::SimdRigid(&set.simd_velocity_constraints@[k]),
                after@,
            ),
{
    let chain = law_writeback_calls(set, joints, after);
    lemma_recorded(set, recorded, chain, chain.len() - 1);
}

proof fn lemma_recorded<'a, M: JointConstraintModel>(
    set: JointConstraintsSet<M>,
    recorded: spec_fn(AnyJointConstraint<'a, M>, Seq<JointGraphEdge<M::Joint>>) -> bool,
    chain: Seq<Vec<JointGraphEdge<M::Joint>>>,
    n: int,
)
    requires
        writing_records(set, recorded),
        ({
            let rigid = set.generic_velocity_constraints@.len() as int;
            let simd = rigid + set.velocity_constraints@.len();
            let end = simd + set.simd_velocity_constraints@.len();
            &&& 0 <= n <= end
            &&& chain.len() == end + 1
            &&& forall|k: int|
                #![trigger set.generic_velocity_constraints@[k]]
                0 <= k < set.generic_velocity_constraints@.len() ==> call_ensures(
                    M::writeback_impulses,
                    (AnyJointConstraint::Generic(&set.generic_velocity_constraints@[k]), chain[k]),
                    chain[k + 1],
                )
            &&& forall|k: int|
                #![trigger set.velocity_constraints@[k]]
                0 <= k < set.velocity_constraints@.len() ==> call_ensures(
                    M::writeback_impulses,
                    (AnyJointConstraint::Rigid(&set.velocity_constraints@[k]), chain[rigid + k]),
                    chain[rigid + k + 1],
                )
            &&& forall|k: int|
                #![trigger set.simd_velocity_constraints@[k]]
                0 <= k < set.simd_velocity_constraints@.len() ==> call_ensures(
                    M::writeback_impulses,
                    (
                        AnyJointConstraint::SimdRigid(&set.simd_velocity_constraints@[k]),
                        chain[simd + k],
                    ),
                    chain[simd + k + 1],
                )
        }),
    ensures
        forall|k: int|
            #![trigger set.generic_velocity_constraints@[k]]
            0 <= k < set.generic_velocity_constraints@.len() && k < n ==> recorded(
                AnyJointConstraint::Generic(&set.generic_velocity_constraints@[k]),
                chain[n]@,
            ),
        forall|k: int|
            #![trigger set.velocity_constraints@[k]]
            0 <= k < set.velocity_constraints@.len() && k
                < n - set.generic_velocity_constraints@.len() ==> recorded(
                AnyJointConstraint::Rigid(&set.velocity_constraints@[k]),
                chain[n]@,
            ),
        forall|k: int|
            #![trigger set.simd_velocity_constraints@[k]]
            0 <= k < set.simd_velocity_constraints@.len() && k
                < n - set.generic_velocity_constraints@.len() - set.velocity_constraints@.len()
                ==> recorded(
                AnyJointConstraint::SimdRigid(&set.simd_velocity_constraints@[k]),
                chain[n]@,
            ),
    decreases n,
{
    if n > 0 {
        let m = n - 1;
        lemma_recorded(set, recorded, chain, m);
        let rigid = set.generic_velocity_constraints@.len() as int;
        let simd = rigid + set.velocity_constraints@.len();
        let constraint: AnyJointConstraint<'a, M> = if m < rigid {
            AnyJointConstraint::Generic(&set.generic_velocity_constraints@[m])
        } else if m < simd {
            AnyJointConstraint::Rigid(&set.velocity_constraints@[m - rigid])
        } else {
            AnyJointConstraint::SimdRigid(&set.simd_velocity_constraints@[m - simd])
        };
        assert(rigid + (m - rigid) == m && simd + (m - simd) == m);
        assert(held(set, constraint));
        assert(call_ensures(M::writeback_impulses, (constraint, chain[m]), chain[m + 1]));
    }
}

proof fn lemma_update_calls<M: JointConstraintModel>(
    inputs: CouplingInputs<M>,
    n: nat,
    pre: CoupledState<M>,
    post: CoupledState<M>,
) -> (chain: Seq<(Vec<M::Real>, Vec<Constraint<M>>)>)
    requires
        builders_updated(inputs, n, pre, post),
        n <= pre.builders.len(),
    ensures
        post.builders.len() == pre.builders.len(),
        forall|k: int|
            n <= k < pre.builders.len() ==> #[trigger] post.builders[k] == pre.builders[k],
        chain.len() == n + 1,
        chain[0] == (pre.jacobians, pre.constraints),
        chain[n as int] == (post.jacobians, post.constraints),
        forall|k: int|
            #![trigger pre.builders[k]]
            0 <= k < n ==> match pre.builders[k] {
                GenericJointConstraintBuilder::External(builder) => {
                    post.builders[k] matches GenericJointConstraintBuilder::External(after)
                        && call_ensures(
                        M::update_external,
                        (
                            &inputs.world,
                            builder,
                            &inputs.params,
                            &inputs.multibodies,
                            &inputs.solver_bodies,
                            chain[k].0,
                            chain[k].1,
                        ),
                        (after, chain[k + 1].0, chain[k + 1].1),
                    )
                },
                GenericJointConstraintBuilder::Internal(builder) => {
                    post.builders[k] matches GenericJointConstraintBuilder::Internal(after)
                        && call_ensures(
                        M::update_internal,
                        (
                            &inputs.world,
                            builder,
                            &inputs.params,
                            &inputs.multibodies,
                            chain[k].0,
                            chain[k].1,
                        ),
                        (after, chain[k + 1].0, chain[k + 1].1),
                    )
                },
                GenericJointConstraintBuilder::Empty => {
                    post.builders[k] is Empty && chain[k + 1] == chain[k]
                },
            },
    decreases n,
{
    if n == 0 {
        seq![(pre.jacobians, pre.constraints)]
    } else {
        let m = (n - 1) as nat;
        let mid = choose|mid: CoupledState<M>|
            {
                &&& builders_updated(inputs, m, pre, mid)
                &&& #[trigger] builder_updated(inputs, n - 1, mid, post)
            };
        let before = lemma_update_calls(inputs, m, pre, mid);
        let chain = before.push((post.jacobians, post.constraints));
        assert(mid.builders[m as int] == pre.builders[m as int]);
        assert(post.builders.len() == pre.builders.len());
        assert forall|k: int|
            n <= k < pre.builders.len() implies #[trigger] post.builders[k]
            == pre.builders[k] by {
            assert(mid.builders[k] == pre.builders[k]);
        }
        match pre.builders[m as int] {
            GenericJointConstraintBuilder::External(builder) => {
                let out = choose|out: (M::ExternalBuilder, Vec<M::Real>, Vec<Constraint<M>>)|
                    {
                        &&& #[trigger] call_ensures(
                            M::update_external,
                            (
                                &inputs.world,
                                builder,
                                &inputs.params,
                                &inputs.multibodies,
                                &inputs.solver_bodies,
                                mid.jacobians,
                                mid.constraints,
                            ),
                            out,
                        )
                        &&& post.builders == mid.builders.update(
                            m as int,
                            GenericJointConstraintBuilder::External(out.0),
                        )
                        &&& post.jacobians == out.1
                        &&& post.constraints == out.2
                    };
                assert((out.0, chain[n as int].0, chain[n as int].1) == out);
            },
            GenericJointConstraintBuilder::Internal(builder) => {
                let out = choose|out: (M::InternalBuilder, Vec<M::Real>, Vec<Constraint<M>>)|
                    {
                        &&& #[trigger] call_ensures(
                            M::update_internal,
                            (
                                &inputs.world,
                                builder,
                                &inputs.params,
                                &inputs.multibodies,
                                mid.jacobians,
                                mid.constraints,
                            ),
                            out,
                        )
                        &&& post.builders == mid.builders.update(
                            m as int,
                            GenericJointConstraintBuilder::Internal(out.0),
                        )
                        &&& post.jacobians == out.1
                        &&& post.constraints == out.2
                    };
                assert((out.0, chain[n as int].0, chain[n as int].1) == out);
            },
            GenericJointConstraintBuilder::Empty => {},
        }
        assert forall|k: int| 0 <= k < m implies #[trigger] post.builders[k]
            == mid.builders[k] by {}
        assert forall|k: int| 0 <= k <= m implies #[trigger] chain[k] == before[k] by {}
        chain
    }
}

/// Every builder that is not empty is updated, once and in order, and nothing else is called.
/// Returns the jacobians and the constraints as they were handed from one builder to the next. The
/// first got those of the set. The jacobians that the last one left are those of the set. Every
/// constraint has the row that the builders left at its own position. Those that the set had
/// before have the impulses and bounds they had, and any that are new have what the builders left.
pub proof fn law_update_calls<M: JointConstraintModel>(
    before: JointConstraintsSet<M>,
    after: JointConstraintsSet<M>,
    inputs: CouplingInputs<M>,
) -> (chain: Seq<(Vec<M::Real>, Vec<Constraint<M>>)>)
    requires
        after.updated_from(&before, inputs),
    ensures
        ({
            let n = before.generic_velocity_constraints_builder@.len() as int;
            let kept = before.generic_velocity_constraints@;
            let left = chain[n].1@;
            let constraints = after.generic_velocity_constraints@;
            &&& after.generic_velocity_constraints_builder@.len() == n
            &&& chain.len() == n + 1
            &&& chain[0].0 == before.generic_jacobians
            &&& chain[0].1 == before.generic_velocity_constraints
            &&& chain[n].0 == after.generic_jacobians
            &&& constraints.len() == left.len()
            &&& forall|i: int|
                0 <= i < left.len() ==> (#[trigger] constraints[i]).row == left[i].row
            &&& forall|i: int|
                0 <= i < left.len() && i < kept.len() ==> (#[trigger] constraints[i]).impulse
                    == kept[i].impulse && constraints[i].impulse_bounds == kept[i].impulse_bounds
            &&& forall|i: int|
                kept.len() <= i < left.len() ==> #[trigger] constraints[i] == left[i]
        }),
        forall|k: int|
            #![trigger before.generic_velocity_constraints_builder@[k]]
            0 <= k < before.generic_velocity_constraints_builder@.len() ==> {
                let updated = after.generic_velocity_constraints_builder@[k];
                match before.generic_velocity_constraints_builder@[k] {
                    GenericJointConstraintBuilder::External(builder) => {
                        updated matches GenericJointConstraintBuilder::External(built)
                            && call_ensures(
                            M::update_external,
                            (
                                &inputs.world,
                                builder,
                                &inputs.params,
                                &inputs.multibodies,
                                &inputs.solver_bodies,
                                chain[k].0,
                                chain[k].1,
                            ),
                            (built, chain[k + 1].0, chain[k + 1].1),
                        )
                    },
                    GenericJointConstraintBuilder::Internal(builder) => {
                        updated matches GenericJointConstraintBuilder::Internal(built)
                            && call_ensures(
                            M::update_internal,
                            (
                                &inputs.world,
                                builder,
                                &inputs.params,
                                &inputs.multibodies,
                                chain[k].0,
                                chain[k].1,
                            ),
                            (built, chain[k + 1].0, chain[k + 1].1),
                        )
                    },
                    GenericJointConstraintBuilder::Empty => {
                        updated is Empty && chain[k + 1] == chain[k]
                    },
                }
            },
{
    let n = before.generic_velocity_constraints_builder@.len();
    let updated = choose|updated: CoupledState<M>|
        {
            &&& #[trigger] builders_updated(inputs, n, before.coupled_state(), updated)
            &&& after.generic_velocity_constraints_builder@ == updated.builders
            &&& after.generic_jacobians == updated.jacobians
            &&& after.generic_velocity_constraints@ == with_impulses(
                updated.constraints@,
                impulses_of(before.generic_velocity_constraints@),
            )
        };
    lemma_update_calls(inputs, n, before.coupled_state(), updated)
}

proof fn lemma_last_write<M: JointConstraintModel, T>(
    builders: Seq<Builder<M>>,
    writes: spec_fn(Builder<M>) -> Map<int, T>,
    n: nat,
    i: int,
    k: int,
)
    requires
        n <= builders.len(),
        forall|j: int|
            k < j < n && !((#[trigger] builders[j]) is Empty) ==> !writes(
                builders[j],
            ).dom().contains(i),
        0 <= k < n ==> !(builders[k] is Empty) && writes(builders[k]).dom().contains(i),
        -1 <= k < n,
    ensures
        k >= 0 ==> last_write::<M, T>(builders, writes, n, i) == Some(writes(builders[k])[i]),
        k < 0 ==> last_write::<M, T>(builders, writes, n, i) is None,
    decreases n,
{
    if n > 0 && k < n - 1 {
        assert(builders[n - 1] is Empty || !writes(builders[n - 1]).dom().contains(i));
        lemma_last_write::<M, T>(builders, writes, (n - 1) as nat, i, k);
    }
}

/// What an update leaves at each position, if what each builder writes depends on the inputs and
/// the builder alone: the row that the last builder writes there or, if none does, the row that
/// was there, with the impulse and the bounds that were there. The same goes for the jacobians.
pub proof fn law_update_rows<M: JointConstraintModel>(
    inputs: CouplingInputs<M>,
    constraint_writes: spec_fn(Builder<M>) -> Map<int, Constraint<M>>,
    jacobian_writes: spec_fn(Builder<M>) -> Map<int, M::Real>,
    before: JointConstraintsSet<M>,
    after: JointConstraintsSet<M>,
)
    requires
        derives_by_overwriting(inputs, constraint_writes, jacobian_writes),
        after.updated_from(&before, inputs),
    ensures
        after.generic_velocity_constraints@.len() == before.generic_velocity_constraints@.len(),
        after.generic_jacobians@.len() == before.generic_jacobians@.len(),
        forall|i: int|
            #![trigger after.generic_velocity_constraints@[i]]
            0 <= i < before.generic_velocity_constraints@.len() ==> {
                let old_one = before.generic_velocity_constraints@[i];
                let new_one = after.generic_velocity_constraints@[i];
                &&& new_one.impulse == old_one.impulse
                &&& new_one.impulse_bounds == old_one.impulse_bounds
            },
        forall|i: int, k: int|
            #![trigger
                after.generic_velocity_constraints@[i],
                before.generic_velocity_constraints_builder@[k]
            ]
            {
                let builders = before.generic_velocity_constraints_builder@;
                &&& 0 <= i < before.generic_velocity_constraints@.len()
                &&& 0 <= k < builders.len()
                &&& !(builders[k] is Empty)
                &&& constraint_writes(builders[k]).dom().contains(i)
                &&& forall|j: int|
                    k < j < builders.len() && !((#[trigger] builders[j]) is Empty)
                        ==> !constraint_writes(builders[j]).dom().contains(i)
            } ==> after.generic_velocity_constraints@[i].row == constraint_writes(
                before.generic_velocity_constraints_builder@[k],
            )[i].row,
        forall|i: int|
            #![trigger after.generic_velocity_constraints@[i]]
            0 <= i < before.generic_velocity_constraints@.len() && (forall|j: int|
                0 <= j < before.generic_velocity_constraints_builder@.len() && !((
                #[trigger] before.generic_velocity_constraints_builder@[j]) is Empty)
                    ==> !constraint_writes(
                    before.generic_velocity_constraints_builder@[j],
                ).dom().contains(i)) ==> after.generic_velocity_constraints@[i].row
                == before.generic_velocity_constraints@[i].row,
        forall|i: int, k: int|
            #![trigger after.generic_jacobians@[i], before.generic_velocity_constraints_builder@[k]]
            {
                let builders = before.generic_velocity_constraints_builder@;
                &&& 0 <= i < before.generic_jacobians@.len()
                &&& 0 <= k < builders.len()
                &&& !(builders[k] is Empty)
                &&& jacobian_writes(builders[k]).dom().contains(i)
                &&& forall|j: int|
                    k < j < builders.len() && !((#[trigger] builders[j]) is Empty)
                        ==> !jacobian_writes(builders[j]).dom().contains(i)
            } ==> after.generic_jacobians@[i] == jacobian_writes(
                before.generic_velocity_constraints_builder@[k],
            )[i],
        forall|i: int|
            #![trigger after.generic_jacobians@[i]]
            0 <= i < before.generic_jacobians@.len() && (forall|j: int|
                0 <= j < before.generic_velocity_constraints_builder@.len() && !((
                #[trigger] before.generic_velocity_constraints_builder@[j]) is Empty)
                    ==> !jacobian_writes(
                    before.generic_velocity_constraints_builder@[j],
                ).dom().contains(i)) ==> after.generic_jacobians@[i]
                == before.generic_jacobians@[i],
{
    let builders = before.generic_velocity_constraints_builder@;
    let n = builders.len();
    let start = before.coupled_state();
    let updated = choose|updated: CoupledState<M>|
        {
            &&& #[trigger] builders_updated(inputs, n, start, updated)
            &&& after.generic_jacobians == updated.jacobians
            &&& after.generic_velocity_constraints@ == with_impulses(
                updated.constraints@,
                impulses_of(before.generic_velocity_constraints@),
            )
        };
    lemma_all_written(inputs, constraint_writes, jacobian_writes, n, start, updated);
    assert forall|i: int, k: int|
        #![trigger after.generic_velocity_constraints@[i], builders[k]]
        {
            &&& 0 <= i < before.generic_velocity_constraints@.len()
            &&& 0 <= k < builders.len()
            &&& !(builders[k] is Empty)
            &&& constraint_writes(builders[k]).dom().contains(i)
            &&& forall|j: int|
                k < j < builders.len() && !((#[trigger] builders[j]) is Empty)
                    ==> !constraint_writes(builders[j]).dom().contains(i)
        } implies after.generic_velocity_constraints@[i].row == constraint_writes(
        builders[k],
    )[i].row by {
        lemma_last_write::<M, Constraint<M>>(builders, constraint_writes, n, i, k);
    }
    assert forall|i: int|
        #![trigger after.generic_velocity_constraints@[i]]
        0 <= i < before.generic_velocity_constraints@.len() && (forall|j: int|
            0 <= j < builders.len() && !((#[trigger] builders[j]) is Empty)
                ==> !constraint_writes(builders[j]).dom().contains(i)) implies
        after.generic_velocity_constraints@[i].row
        == before.generic_velocity_constraints@[i].row by {
        lemma_last_write::<M, Constraint<M>>(builders, constraint_writes, n, i, -1);
    }
    assert forall|i: int, k: int|
        #![trigger after.generic_jacobians@[i], builders[k]]
        {
            &&& 0 <= i < before.generic_jacobians@.len()
            &&& 0 <= k < builders.len()
            &&& !(builders[k] is Empty)
            &&& jacobian_writes(builders[k]).dom().contains(i)
            &&& forall|j: int|
                k < j < builders.len() && !((#[trigger] builders[j]) is Empty)
                    ==> !jacobian_writes(builders[j]).dom().contains(i)
        } implies after.generic_jacobians@[i] == jacobian_writes(builders[k])[i] by {
        lemma_last_write::<M, M::Real>(builders, jacobian_writes, n, i, k);
    }
    assert forall|i: int|
        #![trigger after.generic_jacobians@[i]]
        0 <= i < before.generic_jacobians@.len() && (forall|j: int|
            0 <= j < builders.len() && !((#[trigger] builders[j]) is Empty) ==> !jacobian_writes(
                builders[j],
            ).dom().contains(i)) implies after.generic_jacobians@[i]
        == before.generic_jacobians@[i] by {
        lemma_last_write::<M, M::Real>(builders, jacobian_writes, n, i, -1);
    }
}

/// What happened while builders were generated.
pub struct GenerationHistory<M: JointConstraintModel> {
    /// The number of constraints that the joint of each body was said to need.
    pub counts: Seq<usize>,
    /// The number of bodies, among those before each position, whose joints need constraints.
    pub needy: Seq<nat>,
    /// The states passed through: one for each interaction and each body, and the last one.
    pub states: Seq<GenerationState<M>>,
    /// What stands in the slots of constraints that are new.
    pub invalid: Constraint<M>,
}

proof fn lemma_count_calls<M: JointConstraintModel>(
    inputs: GenerationInputs<M>,
    island: Seq<RigidBodyHandle>,
    n: nat,
) -> (history: (Seq<usize>, Seq<nat>))
    requires
        internal_builders_counted(inputs, island, n),
    ensures
        history.0.len() == island.len(),
        history.1.len() == island.len() + 1,
        history.1[0] == 0,
        history.1[island.len() as int] == n,
        forall|i: int|
            #![trigger island[i]]
            0 <= i < island.len() ==> match inputs.multibodies.link_of(island[i]) {
                Some(link) => {
                    &&& call_ensures(
                        M::num_internal_constraints,
                        (&inputs.world, &inputs.multibodies, &link),
                        history.0[i],
                    )
                    &&& history.1[i + 1] == history.1[i] + if history.0[i] > 0 {
                        1nat
                    } else {
                        0
                    }
                },
                None => history.1[i + 1] == history.1[i],
            },
    decreases island.len(),
{
    if island.len() == 0 {
        (Seq::empty(), seq![0nat])
    } else {
        let front = island.drop_last();
        let m = front.len() as int;
        let history = match inputs.multibodies.link_of(island.last()) {
            Some(link) => {
                let count = choose|count: usize|
                    {
                        &&& #[trigger] call_ensures(
                            M::num_internal_constraints,
                            (&inputs.world, &inputs.multibodies, &link),
                            count,
                        )
                        &&& if count > 0 {
                            n > 0 && internal_builders_counted(inputs, front, (n - 1) as nat)
                        } else {
                            internal_builders_counted(inputs, front, n)
                        }
                    };
                let h = lemma_count_calls(
                    inputs,
                    front,
                    if count > 0 {
                        (n - 1) as nat
                    } else {
                        n
                    },
                );
                let all = (h.0.push(count), h.1.push(n));
                assert forall|i: int| #![trigger island[i]] 0 <= i < m implies front[i] == island[i]
                    && all.0[i] == h.0[i] && all.1[i] == h.1[i] && all.1[i + 1] == h.1[i + 1] by {}
                all
            },
            None => {
                let h = lemma_count_calls(inputs, front, n);
                let all = (h.0.push(0usize), h.1.push(n));
                assert forall|i: int| #![trigger island[i]] 0 <= i < m implies front[i] == island[i]
                    && all.0[i] == h.0[i] && all.1[i] == h.1[i] && all.1[i + 1] == h.1[i + 1] by {}
                all
            },
        };
        assert(island[m] == island.last());
        history
    }
}

proof fn lemma_external_states<M: JointConstraintModel>(
    inputs: GenerationInputs<M>,
    joint_ids: Seq<usize>,
    pre: GenerationState<M>,
    post: GenerationState<M>,
) -> (states: Seq<GenerationState<M>>)
    requires
        externals_generated(inputs, joint_ids, pre, post),
    ensures
        states.len() == joint_ids.len() + 1,
        states[0] == pre,
        states[joint_ids.len() as int] == post,
        forall|k: int|
            #![trigger joint_ids[k]]
            0 <= k < joint_ids.len() ==> external_generated(
                inputs,
                joint_ids[k],
                states[k],
                states[k + 1],
            ),
    decreases joint_ids.len(),
{
    if joint_ids.len() == 0 {
        seq![pre]
    } else {
        let front = joint_ids.drop_last();
        let mid = choose|mid: GenerationState<M>|
            {
                &&& externals_generated(inputs, front, pre, mid)
                &&& #[trigger] external_generated(inputs, joint_ids.last(), mid, post)
            };
        let before = lemma_external_states(inputs, front, pre, mid);
        let states = before.push(post);
        assert forall|k: int|
            #![trigger joint_ids[k]]
            0 <= k < joint_ids.len() implies external_generated(
            inputs,
            joint_ids[k],
            states[k],
            states[k + 1],
        ) by {
            if k < front.len() {
                assert(front[k] == joint_ids[k]);
                assert(states[k] == before[k] && states[k + 1] == before[k + 1]);
            }
        }
        states
    }
}

proof fn lemma_internal_states<M: JointConstraintModel>(
    inputs: GenerationInputs<M>,
    island: Seq<RigidBodyHandle>,
    pre: GenerationState<M>,
    post: GenerationState<M>,
) -> (states: Seq<GenerationState<M>>)
    requires
        internals_generated(inputs, island, pre, post),
    ensures
        states.len() == island.len() + 1,
        states[0] == pre,
        states[island.len() as int] == post,
        forall|i: int|
            #![trigger island[i]]
            0 <= i < island.len() ==> internal_generated(
                inputs,
                island[i],
                states[i],
                states[i + 1],
            ),
    decreases island.len(),
{
    if island.len() == 0 {
        seq![pre]
    } else {
        let front = island.drop_last();
        let mid = choose|mid: GenerationState<M>|
            {
                &&& internals_generated(inputs, front, pre, mid)
                &&& #[trigger] internal_generated(inputs, island.last(), mid, post)
            };
        let before = lemma_internal_states(inputs, front, pre, mid);
        let states = before.push(post);
        assert forall|i: int|
            #![trigger island[i]]
            0 <= i < island.len() implies internal_generated(
            inputs,
            island[i],
            states[i],
            states[i + 1],
        ) by {
            if i < front.len() {
                assert(front[i] == island[i]);
                assert(states[i] == before[i] && states[i + 1] == before[i + 1]);
            }
        }
        states
    }
}

proof fn lemma_joined_states<M: JointConstraintModel>(
    externals: Seq<GenerationState<M>>,
    internals: Seq<GenerationState<M>>,
) -> (states: Seq<GenerationState<M>>)
    requires
        externals.len() > 0,
        internals.len() > 0,
        internals[0] == externals.last(),
    ensures
        states.len() == externals.len() + internals.len() - 1,
        forall|k: int| 0 <= k < externals.len() ==> #[trigger] states[k] == externals[k],
        forall|i: int|
            #![trigger internals[i]]
            0 <= i < internals.len() ==> states[externals.len() - 1 + i] == internals[i],
{
    externals.drop_last() + internals
}

/// What is asked of the model when builders are generated, and where the answers go. Every body
/// that is a link is asked how many constraints its joint needs. There are as many builders as
/// interactions and bodies that answer with more than none. The builders start from those of the
/// set, and `Empty` where there are more than it had. Each interaction, in order, has the builder
/// of its own position generated for its joint. Then each body that is a link, in the order of the
/// island, has the next builder generated for its joint, unless all are used up. The builder is
/// used up if the number of constraints has changed. Only these builders change. The jacobians are
/// handed on from each call to the next. In the end there are as many constraints as were
/// generated: those of the set, and the invalid one where there are more than it had.
pub proof fn law_generation_calls<M: JointConstraintModel>(
    before: JointConstraintsSet<M>,
    after: JointConstraintsSet<M>,
    inputs: GenerationInputs<M>,
    island: Seq<RigidBodyHandle>,
    j_id: usize,
    j_id_after: usize,
) -> (history: GenerationHistory<M>)
    requires
        after.generated_from(&before, inputs, island, j_id, j_id_after),
    ensures
        history.counts.len() == island.len(),
        history.needy.len() == island.len() + 1,
        history.needy[0] == 0,
        forall|i: int|
            #![trigger island[i]]
            0 <= i < island.len() ==> {
                let links = inputs.multibodies.rigid_body_links@;
                if island[i].0 < links.len() && links[island[i].0 as int] is Some {
                    &&& call_ensures(
                        M::num_internal_constraints,
                        (
                            &inputs.world,
                            &inputs.multibodies,
                            &links[island[i].0 as int]->0,
                        ),
                        history.counts[i],
                    )
                    &&& history.needy[i + 1] == history.needy[i] + if history.counts[i] > 0 {
                        1nat
                    } else {
                        0
                    }
                } else {
                    history.needy[i + 1] == history.needy[i]
                }
            },
        ({
            let old_builders = before.generic_velocity_constraints_builder@;
            let first = history.states[0];
            &&& history.states.len() == before.generic_two_body_interactions@.len() + island.len()
                + 1
            &&& first.builders.len() == before.generic_two_body_interactions@.len()
                + history.needy[island.len() as int]
            &&& forall|k: int|
                0 <= k < first.builders.len() ==> #[trigger] first.builders[k] == if k
                    < old_builders.len() {
                    old_builders[k]
                } else {
                    GenericJointConstraintBuilder::Empty
                }
            &&& first.assembly.jacobians == before.generic_jacobians
            &&& first.assembly.j_id == j_id
            &&& first.assembly.num_constraints == 0
            &&& first.next == 0
        }),
        forall|k: int|
            #![trigger before.generic_two_body_interactions@[k]]
            0 <= k < before.generic_two_body_interactions@.len() ==> {
                let joint_id = before.generic_two_body_interactions@[k];
                let pre = history.states[k];
                let post = history.states[k + 1];
                &&& call_ensures(
                    M::generate_external,
                    (
                        &inputs.world,
                        &inputs.multibodies,
                        joint_id,
                        &inputs.joints[joint_id as int].weight,
                        pre.builders[k],
                        pre.assembly,
                    ),
                    (post.builders[k], post.assembly),
                )
                &&& post.builders == pre.builders.update(k, post.builders[k])
                &&& pre.next == k
                &&& post.next == k + 1
            },
        forall|i: int|
            #![trigger island[i]]
            0 <= i < island.len() ==> {
                let links = inputs.multibodies.rigid_body_links@;
                let pre = history.states[before.generic_two_body_interactions@.len() + i];
                let post = history.states[before.generic_two_body_interactions@.len() + i + 1];
                let slot = pre.next as int;
                if island[i].0 < links.len() && links[island[i].0 as int] is Some && slot
                    < pre.builders.len() {
                    &&& call_ensures(
                        M::generate_internal,
                        (
                            &inputs.world,
                            &inputs.multibodies,
                            &links[island[i].0 as int]->0,
                            pre.builders[slot],
                            pre.assembly,
                        ),
                        (post.builders[slot], post.assembly),
                    )
                    &&& post.builders == pre.builders.update(slot, post.builders[slot])
                    &&& post.next == pre.next + if post.assembly.num_constraints
                        != pre.assembly.num_constraints {
                        1nat
                    } else {
                        0
                    }
                } else {
                    post == pre
                }
            },
        ({
            let old_constraints = before.generic_velocity_constraints@;
            let constraints = after.generic_velocity_constraints@;
            let last = history.states.last();
            &&& after.generic_velocity_constraints_builder@ == last.builders
            &&& after.generic_jacobians == last.assembly.jacobians
            &&& j_id_after == last.assembly.j_id
            &&& call_ensures(M::invalid_joint_constraint, (), history.invalid)
            &&& constraints.len() == last.assembly.num_constraints
            &&& forall|i: int|
                0 <= i < constraints.len() ==> #[trigger] constraints[i] == if i
                    < old_constraints.len() {
                    old_constraints[i]
                } else {
                    history.invalid
                }
        }),
{
    let joint_ids = before.generic_two_body_interactions@;
    let e = joint_ids.len() as int;
    let generation = lemma_generation(before, after, inputs, island, j_id, j_id_after);
    let (counts, needy) = lemma_count_calls(inputs, island, generation.num_internal);
    let externals = lemma_external_states(
        inputs,
        joint_ids,
        generation.start,
        generation.externals,
    );
    let internals = lemma_internal_states(
        inputs,
        island,
        generation.externals,
        generation.all,
    );
    let states = lemma_joined_states(externals, internals);
    lemma_external_slots(inputs, joint_ids, externals, e);
    assert forall|k: int|
        #![trigger joint_ids[k]]
        0 <= k < joint_ids.len() implies {
        let joint_id = joint_ids[k];
        let pre = states[k];
        let post = states[k + 1];
        &&& call_ensures(
            M::generate_external,
            (
                &inputs.world,
                &inputs.multibodies,
                joint_id,
                &inputs.joints[joint_id as int].weight,
                pre.builders[k],
                pre.assembly,
            ),
            (post.builders[k], post.assembly),
        )
        &&& post.builders == pre.builders.update(k, post.builders[k])
        &&& pre.next == k
        &&& post.next == k + 1
    } by {
        let pre = externals[k];
        let post = externals[k + 1];
        assert(states[k] == pre && states[k + 1] == post);
        assert(external_generated(inputs, joint_ids[k], pre, post));
        let out = choose|out: (Builder<M>, JointAssembly<M::Real>)|
            {
                &&& #[trigger] call_ensures(
                    M::generate_external,
                    (
                        &inputs.world,
                        &inputs.multibodies,
                        joint_ids[k],
                        &inputs.joints[joint_ids[k] as int].weight,
                        pre.builders[pre.next as int],
                        pre.assembly,
                    ),
                    out,
                )
                &&& post.builders == pre.builders.update(pre.next as int, out.0)
                &&& post.assembly == out.1
                &&& post.next == pre.next + 1
            };
        assert((post.builders[k], post.assembly) == out);
    }
    assert forall|i: int|
        #![trigger island[i]]
        0 <= i < island.len() implies {
        let links = inputs.multibodies.rigid_body_links@;
        let pre = states[e + i];
        let post = states[e + i + 1];
        let slot = pre.next as int;
        if island[i].0 < links.len() && links[island[i].0 as int] is Some && slot
            < pre.builders.len() {
            &&& call_ensures(
                M::generate_internal,
                (
                    &inputs.world,
                    &inputs.multibodies,
                    &links[island[i].0 as int]->0,
                    pre.builders[slot],
                    pre.assembly,
                ),
                (post.builders[slot], post.assembly),
            )
            &&& post.builders == pre.builders.update(slot, post.builders[slot])
            &&& post.next == pre.next + if post.assembly.num_constraints
                != pre.assembly.num_constraints {
                1nat
            } else {
                0
            }
        } else {
            post == pre
        }
    } by {
        let pre = internals[i];
        let post = internals[i + 1];
        assert(states[e + i] == pre);
        assert(states[e + i + 1] == post) by {
            assert(states[externals.len() - 1 + (i + 1)] == internals[i + 1]);
        }
        assert(internal_generated(inputs, island[i], pre, post));
        lemma_internal_call(inputs, island[i], pre, post);
    }
    assert(states.last() == internals.last());
    GenerationHistory { counts, needy, states, invalid: generation.invalid }
}

proof fn lemma_internal_call<M: JointConstraintModel>(
    inputs: GenerationInputs<M>,
    handle: RigidBodyHandle,
    pre: GenerationState<M>,
    post: GenerationState<M>,
)
    requires
        internal_generated(inputs, handle, pre, post),
    ensures
        inputs.multibodies.link_of(handle) matches Some(link) ==> pre.next < pre.builders.len()
            ==> {
            &&& call_ensures(
                M::generate_internal,
                (
                    &inputs.world,
                    &inputs.multibodies,
                    &link,
                    pre.builders[pre.next as int],
                    pre.assembly,
                ),
                (post.builders[pre.next as int], post.assembly),
            )
            &&& post.builders == pre.builders.update(
                pre.next as int,
                post.builders[pre.next as int],
            )
        },
{
    match inputs.multibodies.link_of(handle) {
        Some(link) => {
            if pre.next < pre.builders.len() {
                let out = choose|out: (Builder<M>, JointAssembly<M::Real>)|
                    {
                        &&& #[trigger] call_ensures(
                            M::generate_internal,
                            (
                                &inputs.world,
                                &inputs.multibodies,
                                &link,
                                pre.builders[pre.next as int],
                                pre.assembly,
                            ),
                            out,
                        )
                        &&& post.builders == pre.builders.update(pre.next as int, out.0)
                        &&& post.assembly == out.1
                    };
                assert((post.builders[pre.next as int], post.assembly) == out);
            }
        },
        None => {},
    }
}

proof fn lemma_external_slots<M: JointConstraintModel>(
    inputs: GenerationInputs<M>,
    joint_ids: Seq<usize>,
    states: Seq<GenerationState<M>>,
    n: int,
)
    requires
        0 <= n <= joint_ids.len(),
        states.len() == joint_ids.len() + 1,
        states[0].next == 0,
        joint_ids.len() <= states[0].builders.len(),
        forall|k: int|
            #![trigger joint_ids[k]]
            0 <= k < joint_ids.len() ==> external_generated(
                inputs,
                joint_ids[k],
                states[k],
                states[k + 1],
            ),
    ensures
        forall|k: int|
            0 <= k <= n ==> (#[trigger] states[k]).next == k && states[k].builders.len()
                == states[0].builders.len(),
    decreases n,
{
    if n > 0 {
        lemma_external_slots(inputs, joint_ids, states, n - 1);
        assert(external_generated(inputs, joint_ids[n - 1], states[n - 1], states[n]));
    }
}

proof fn lemma_needy_places<M: JointConstraintModel>(
    inputs: GenerationInputs<M>,
    needs: spec_fn(MultibodyLinkId) -> bool,
    island: Seq<RigidBodyHandle>,
) -> (places: Seq<int>)
    ensures
        places.len() == needy_links(inputs, needs, island).len(),
        forall|a: int, b: int| 0 <= a < b < places.len() ==> places[a] < places[b],
        forall|j: int|
            0 <= j < places.len() ==> {
                &&& 0 <= #[trigger] places[j] < island.len()
                &&& inputs.multibodies.link_of(island[places[j]]) == Some(
                    needy_links(inputs, needs, island)[j],
                )
                &&& needs(needy_links(inputs, needs, island)[j])
            },
        forall|i: int|
            #![trigger island[i]]
            0 <= i < island.len() && (inputs.multibodies.link_of(island[i]) matches Some(link)
                && needs(link)) ==> places.contains(i),
    decreases island.len(),
{
    if island.len() == 0 {
        Seq::empty()
    } else {
        let front = island.drop_last();
        let last = island.len() - 1;
        let before = lemma_needy_places(inputs, needs, front);
        assert(forall|j: int| 0 <= j < before.len() ==> front[#[trigger] before[j]]
            == island[before[j]]);
        let places = match inputs.multibodies.link_of(island.last()) {
            Some(link) => if needs(link) {
                before.push(last)
            } else {
                before
            },
            None => before,
        };
        assert forall|i: int|
            #![trigger island[i]]
            0 <= i < island.len() && (inputs.multibodies.link_of(island[i]) matches Some(link)
                && needs(link)) implies places.contains(i) by {
            if i < last {
                assert(front[i] == island[i]);
                let j = before.index_of(i);
                assert(places[j] == i);
            } else {
                assert(places[places.len() - 1] == i);
            }
        }
        places
    }
}

/// Every joint is served. If generating for the joint of an interaction makes a builder that is
/// `made` for it, and generating for a link that needs constraints makes a builder that `serves`
/// it, then the builder at the position of every interaction is made for it, and each link of the
/// island that needs constraints is served by a builder of its own, in the order of the island.
/// There are no other builders. Returns the positions of these links in the island.
pub proof fn law_links_served<M: JointConstraintModel>(
    before: JointConstraintsSet<M>,
    after: JointConstraintsSet<M>,
    inputs: GenerationInputs<M>,
    needs: spec_fn(MultibodyLinkId) -> bool,
    made: spec_fn(usize, Builder<M>) -> bool,
    serves: spec_fn(MultibodyLinkId, Builder<M>) -> bool,
    island: Seq<RigidBodyHandle>,
    j_id: usize,
    j_id_after: usize,
) -> (places: Seq<int>)
    requires
        counts_agree(inputs, needs),
        forall|
            joint_id: usize,
            builder: Builder<M>,
            assembly: JointAssembly<M::Real>,
            out: (Builder<M>, JointAssembly<M::Real>),
        | #[trigger]
            call_ensures(
                M::generate_external,
                (
                    &inputs.world,
                    &inputs.multibodies,
                    joint_id,
                    &inputs.joints[joint_id as int].weight,
                    builder,
                    assembly,
                ),
                out,
            ) ==> made(joint_id, out.0),
        forall|
            link: MultibodyLinkId,
            builder: Builder<M>,
            assembly: JointAssembly<M::Real>,
            out: (Builder<M>, JointAssembly<M::Real>),
        |
            needs(link) && #[trigger] call_ensures(
                M::generate_internal,
                (&inputs.world, &inputs.multibodies, &link, builder, assembly),
                out,
            ) ==> serves(link, out.0),
        after.generated_from(&before, inputs, island, j_id, j_id_after),
    ensures
        after.generic_velocity_constraints_builder@.len()
            == before.generic_two_body_interactions@.len() + places.len(),
        forall|k: int|
            0 <= k < before.generic_two_body_interactions@.len() ==> made(
                before.generic_two_body_interactions@[k],
                #[trigger] after.generic_velocity_constraints_builder@[k],
            ),
        forall|a: int, b: int| 0 <= a < b < places.len() ==> places[a] < places[b],
        forall|j: int|
            0 <= j < places.len() ==> {
                let links = inputs.multibodies.rigid_body_links@;
                let handle = island[places[j]];
                &&& 0 <= #[trigger] places[j] < island.len()
                &&& handle.0 < links.len()
                &&& links[handle.0 as int] matches Some(link)
                &&& needs(link)
                &&& serves(
                    link,
                    after.generic_velocity_constraints_builder@[
                        before.generic_two_body_interactions@.len() + j
                    ],
                )
            },
        forall|i: int|
            #![trigger island[i]]
            {
                let links = inputs.multibodies.rigid_body_links@;
                &&& 0 <= i < island.len()
                &&& island[i].0 < links.len()
                &&& links[island[i].0 as int] matches Some(link)
                &&& needs(link)
            } ==> places.contains(i),
{
    let e = before.generic_two_body_interactions@.len();
    let places = lemma_needy_places(inputs, needs, island);
    law_generated_link_builders(before, after, inputs, needs, island, j_id, j_id_after);
    law_generated_interaction_builders(before, after, inputs, island, j_id, j_id_after);
    assert forall|j: int| 0 <= j < places.len() implies {
        let links = inputs.multibodies.rigid_body_links@;
        let handle = island[places[j]];
        &&& 0 <= #[trigger] places[j] < island.len()
        &&& handle.0 < links.len()
        &&& links[handle.0 as int] matches Some(link)
        &&& needs(link)
        &&& serves(link, after.generic_velocity_constraints_builder@[e + j])
    } by {
        let link = needy_links(inputs, needs, island)[j];
        assert(generated_for_link(
            inputs,
            needy_links(inputs, needs, island)[(e + j) - e],
            after.generic_velocity_constraints_builder@[e + j],
        ));
        assert((e + j) - e == j);
    }
    places
}

} // verus!
