//! The velocity solver: solver buffers, and the multibody halves of buffer initialization and of
//! position integration.

use crate::buffers::{align_to_simd, read_rows, refill, write_rows};
use crate::dynamics::{momentum_target, MultibodyDynamics};
use crate::multibody::{
    IntegrationParameters, Multibody, MultibodyJointSet, MultibodyLinkId, RigidBodyHandle,
};
use vstd::prelude::*;

verus! {

broadcast use vstd::seq_lib::group_seq_properties;

use crate::buffers::{aligned_len, filled, rows, simd_lanes, with_rows};
use crate::dynamics::{keeps_dimensions, momentum_ledger, steps_to};
use crate::multibody::{contains_multibody, multibody_at};

/// The link that makes a rigid body stand for a whole multibody in the solver, if it does.
pub open spec fn solver_root<R>(
    multibodies: MultibodyJointSet<R>,
    handle: RigidBodyHandle,
) -> Option<MultibodyLinkId> {
    match multibodies.link_of(handle) {
        Some(link) => if multibody_at(multibodies.multibodies@, link.multibody).starts_at(link) {
            Some(link)
        } else {
            None
        },
        None => None,
    }
}

/// The links by which the multibodies of an island enter the solver, in the order of the island.
pub open spec fn solver_roots<R>(
    multibodies: MultibodyJointSet<R>,
    island: Seq<RigidBodyHandle>,
) -> Seq<MultibodyLinkId>
    decreases island.len(),
{
    if island.len() == 0 {
        Seq::empty()
    } else {
        let before = solver_roots(multibodies, island.drop_last());
        match solver_root(multibodies, island.last()) {
            Some(link) => before.push(link),
            None => before,
        }
    }
}

/// The number of degrees of freedom of the multibodies of all the roots.
pub open spec fn total_dofs<R>(
    multibodies: Seq<Option<Multibody<R>>>,
    roots: Seq<MultibodyLinkId>,
) -> nat
    decreases roots.len(),
{
    if roots.len() == 0 {
        0
    } else {
        total_dofs(multibodies, roots.drop_last()) + multibody_at(
            multibodies,
            roots.last().multibody,
        ).dofs()
    }
}

/// The multibodies once each root, in turn, has been given the first solver id that is free.
pub open spec fn with_solver_ids<R>(
    multibodies: Seq<Option<Multibody<R>>>,
    roots: Seq<MultibodyLinkId>,
) -> Seq<Option<Multibody<R>>>
    decreases roots.len(),
{
    if roots.len() == 0 {
        multibodies
    } else {
        let before = with_solver_ids(multibodies, roots.drop_last());
        let index = roots.last().multibody;
        before.update(
            index.0 as int,
            Some(
                Multibody {
                    solver_id: total_dofs(multibodies, roots.drop_last()) as u32,
                    ..multibody_at(before, index)
                },
            ),
        )
    }
}

/// Whether every link of an island leads to a multibody.
pub open spec fn links_resolve<R>(
    multibodies: MultibodyJointSet<R>,
    island: Seq<RigidBodyHandle>,
) -> bool {
    forall|i: int|
        0 <= i < island.len() ==> (multibodies.link_of(#[trigger] island[i]) matches Some(link)
            ==> contains_multibody(multibodies.multibodies@, link.multibody))
}

/// Whether two lists of multibodies differ in the solver ids at most.
pub open spec fn same_but_ids<R>(
    a: Seq<Option<Multibody<R>>>,
    b: Seq<Option<Multibody<R>>>,
) -> bool {
    &&& a.len() == b.len()
    &&& forall|i: int|
        0 <= i < a.len() ==> match (#[trigger] a[i], b[i]) {
            (Some(x), Some(y)) => {
                &&& x.root_is_dynamic == y.root_is_dynamic
                &&& x.velocities == y.velocities
                &&& x.accelerations == y.accelerations
            },
            (None, None) => true,
            _ => false,
        }
}

/// Whether every root leads to a multibody.
pub open spec fn roots_resolve<R>(
    multibodies: Seq<Option<Multibody<R>>>,
    roots: Seq<MultibodyLinkId>,
) -> bool {
    forall|k: int|
        0 <= k < roots.len() ==> contains_multibody(multibodies, (#[trigger] roots[k]).multibody)
}

pub(crate) proof fn lemma_roots_resolve<R>(
    multibodies: MultibodyJointSet<R>,
    island: Seq<RigidBodyHandle>,
)
    requires
        links_resolve(multibodies, island),
    ensures
        roots_resolve(multibodies.multibodies@, solver_roots(multibodies, island)),
    decreases island.len(),
{
    if island.len() > 0 {
        lemma_roots_resolve(multibodies, island.drop_last());
        assert(multibodies.link_of(island[island.len() - 1]) == multibodies.link_of(
            island.last(),
        ));
    }
}

proof fn lemma_dofs_monotone<R>(
    multibodies: MultibodyJointSet<R>,
    island: Seq<RigidBodyHandle>,
    n: int,
)
    requires
        0 <= n <= island.len(),
    ensures
        total_dofs(multibodies.multibodies@, solver_roots(multibodies, island.take(n)))
            <= total_dofs(multibodies.multibodies@, solver_roots(multibodies, island)),
    decreases island.len(),
{
    if n < island.len() {
        lemma_dofs_monotone(multibodies, island.drop_last(), n);
        assert(island.drop_last().take(n) == island.take(n));
        let before = solver_roots(multibodies, island.drop_last());
        match solver_root(multibodies, island.last()) {
            Some(link) => {
                assert(before.push(link).drop_last() == before);
            },
            None => {},
        }
    } else {
        assert(island.take(n) == island);
    }
}

pub(crate) proof fn lemma_with_solver_ids<R>(
    multibodies: Seq<Option<Multibody<R>>>,
    roots: Seq<MultibodyLinkId>,
)
    requires
        roots_resolve(multibodies, roots),
        total_dofs(multibodies, roots) <= u32::MAX,
    ensures
        same_but_ids(multibodies, with_solver_ids(multibodies, roots)),
        forall|k: int|
            0 <= k < roots.len() ==> {
                let m = multibody_at(
                    with_solver_ids(multibodies, roots),
                    (#[trigger] roots[k]).multibody,
                );
                m.solver_id + m.dofs() <= total_dofs(multibodies, roots)
            },
    decreases roots.len(),
{
    if roots.len() > 0 {
        let front = roots.drop_last();
        assert forall|k: int| 0 <= k < front.len() implies contains_multibody(
            multibodies,
            (#[trigger] front[k]).multibody,
        ) by {
            assert(front[k] == roots[k]);
        }
        lemma_with_solver_ids(multibodies, front);
        let last = roots[roots.len() - 1];
        assert(contains_multibody(multibodies, last.multibody));
        let after = with_solver_ids(multibodies, roots);
        assert forall|k: int| 0 <= k < roots.len() implies {
            let m = multibody_at(after, (#[trigger] roots[k]).multibody);
            m.solver_id + m.dofs() <= total_dofs(multibodies, roots)
        } by {
            if roots[k].multibody != last.multibody {
                assert(roots[k] == front[k]);
            }
        }
    }
}

/// Collects the roots of an island and gives each of them its solver id.
///
/// Returns the roots and the number of degrees of freedom they have together.
pub fn assign_solver_ids<R>(
    multibodies: &mut MultibodyJointSet<R>,
    island_bodies: &[RigidBodyHandle],
) -> (out: (Vec<MultibodyLinkId>, u32))
    requires
        links_resolve(*old(multibodies), island_bodies@),
        total_dofs(
            old(multibodies).multibodies@,
            solver_roots(*old(multibodies), island_bodies@),
        ) <= u32::MAX,
    ensures
        out.0@ == solver_roots(*old(multibodies), island_bodies@),
        out.1 == total_dofs(old(multibodies).multibodies@, out.0@),
        final(multibodies).multibodies@ == with_solver_ids(old(multibodies).multibodies@, out.0@),
        final(multibodies).rigid_body_links == old(multibodies).rigid_body_links,
{
    let ghost initial = *multibodies;
    let mut roots: Vec<MultibodyLinkId> = Vec::new();
    let mut multibody_solver_id: u32 = 0;
    let mut i: usize = 0;
    while i < island_bodies.len()
        invariant
            i <= island_bodies.len(),
            links_resolve(initial, island_bodies@),
            total_dofs(initial.multibodies@, solver_roots(initial, island_bodies@)) <= u32::MAX,
            roots@ == solver_roots(initial, island_bodies@.take(i as int)),
            multibody_solver_id == total_dofs(initial.multibodies@, roots@),
            multibodies.multibodies@ == with_solver_ids(initial.multibodies@, roots@),
            multibodies.rigid_body_links == initial.rigid_body_links,
        decreases island_bodies.len() - i,
    {
        let ghost seen = island_bodies@.take(i as int);
        let ghost before = roots@;
        proof {
            assert(island_bodies@.take(i + 1).drop_last() == seen);
            lemma_dofs_monotone(initial, island_bodies@, i + 1);
            lemma_dofs_monotone(initial, island_bodies@, i as int);
            assert forall|j: int| 0 <= j < seen.len() implies (initial.link_of(
                #[trigger] seen[j],
            ) matches Some(link) ==> contains_multibody(
                initial.multibodies@,
                link.multibody,
            )) by {
                assert(seen[j] == island_bodies@[j]);
            }
            lemma_roots_resolve(initial, seen);
            lemma_with_solver_ids(initial.multibodies@, before);
        }
        let handle = island_bodies[i];
        assert(multibodies.link_of(handle) == initial.link_of(handle));
        if let Some(link) = multibodies.rigid_body_link(handle) {
            let link: MultibodyLinkId = *link;
            let multibody = multibodies.get_multibody_mut_internal(link.multibody).unwrap();
            if multibody.is_started_by(link) {
                assert(before.push(link).drop_last() == before);
                multibody.solver_id = multibody_solver_id;
                multibody_solver_id = multibody_solver_id + multibody.ndofs() as u32;
                roots.push(link);
            }
        }
        i += 1;
    }
    assert(island_bodies@.take(i as int) == island_bodies@);
    (roots, multibody_solver_id)
}

/// Whether the rows of `post` from `base` on are the products of `dt` and `values`, and all other
/// rows are those of `pre`.
pub open spec fn scaled_rows<W: MultibodyDynamics>(
    pre: Seq<W::Real>,
    base: int,
    dt: W::Real,
    values: Seq<W::Real>,
    post: Seq<W::Real>,
) -> bool {
    &&& post.len() == pre.len()
    &&& forall|k: int|
        0 <= k < values.len() ==> #[trigger] call_ensures(
            W::product,
            (dt, values[k]),
            post[base + k],
        )
    &&& forall|i: int|
        0 <= i < pre.len() && !(base <= i < base + values.len()) ==> #[trigger] post[i] == pre[i]
}

/// Overwrites the rows of a generic vector with the products of `dt` and the values given.
pub fn write_scaled_rows<W: MultibodyDynamics>(
    vector: &mut Vec<W::Real>,
    base: usize,
    dt: W::Real,
    values: &Vec<W::Real>,
)
    requires
        base + values.len() <= old(vector).len(),
    ensures
        scaled_rows::<W>(old(vector)@, base as int, dt, values@, final(vector)@),
        final(vector)@.len() == old(vector)@.len(),
        forall|k: int|
            0 <= k < values@.len() ==> #[trigger] call_ensures(
                W::product,
                (dt, values@[k]),
                final(vector)@[base + k],
            ),
        forall|i: int|
            0 <= i < old(vector)@.len() && !(base <= i < base + values@.len())
                ==> #[trigger] final(vector)@[i] == old(vector)@[i],
{
    let ghost before = vector@;
    let mut k: usize = 0;
    while k < values.len()
        invariant
            k <= values.len(),
            base + values.len() <= vector.len(),
            vector.len() == before.len(),
            scaled_rows::<W>(before, base as int, dt, values@.take(k as int), vector@),
        decreases values.len() - k,
    {
        let ghost previous = vector@;
        let value = W::product(dt, values[k]);
        vector.set(base + k, value);
        k += 1;
        proof {
            let done = values@.take(k as int);
            assert forall|j: int| 0 <= j < done.len() implies #[trigger] call_ensures(
                W::product,
                (dt, done[j]),
                vector@[base + j],
            ) by {
                if j < k - 1 {
                    assert(call_ensures(
                        W::product,
                        (dt, values@.take(k - 1)[j]),
                        previous[base + j],
                    ));
                }
            }
        }
    }
    assert(values@.take(k as int) == values@);
}

/// What the multibody part of the solver reads and changes.
#[verifier::ext_equal]
pub struct SolverState<W: MultibodyDynamics> {
    pub world: W,
    pub multibodies: Seq<Option<Multibody<W::Real>>>,
    pub vels: Seq<W::Real>,
    pub increment: Seq<W::Real>,
}

/// Whether a root leads to a multibody whose degrees of freedom lie within the generic vectors.
pub open spec fn root_fits<W: MultibodyDynamics>(
    link: MultibodyLinkId,
    state: SolverState<W>,
) -> bool {
    let multibody = multibody_at(state.multibodies, link.multibody);
    &&& contains_multibody(state.multibodies, link.multibody)
    &&& multibody.solver_id + multibody.dofs() <= state.vels.len()
    &&& multibody.solver_id + multibody.dofs() <= state.increment.len()
}

/// Whether every root leads to a multibody whose degrees of freedom lie within the generic
/// vectors.
pub open spec fn roots_fit<W: MultibodyDynamics>(
    roots: Seq<MultibodyLinkId>,
    state: SolverState<W>,
) -> bool {
    forall|k: int| 0 <= k < roots.len() ==> root_fits(#[trigger] roots[k], state)
}

/// Whether the steps of the multibodies of the roots keep what holds of a world.
pub open spec fn steps_keep<W: MultibodyDynamics>(
    roots: Seq<MultibodyLinkId>,
    inv: spec_fn(W) -> bool,
) -> bool {
    forall|k: int, before: W, after: W|
        0 <= k < roots.len() && inv(before) && #[trigger] steps_to(
            roots[k].multibody,
            before,
            after,
        ) ==> inv(after)
}

/// Whether the generalized vectors that the dynamics return in valid worlds, for the multibodies of
/// the roots, have one row for each of their degrees of freedom.
pub open spec fn sizes_kept<W: MultibodyDynamics>(
    valid: spec_fn(W) -> bool,
    roots: Seq<MultibodyLinkId>,
    multibodies: Seq<Option<Multibody<W::Real>>>,
) -> bool {
    forall|k: int|
        0 <= k < roots.len() ==> keeps_dimensions(
            valid,
            (#[trigger] roots[k]).multibody,
            multibody_at(multibodies, roots[k].multibody).dofs(),
        )
}

/// Whether, in all the worlds that the steps of the multibodies of the roots lead to from this
/// one, the generalized vectors that the dynamics return for them have one row for each of their
/// degrees of freedom.
pub open spec fn roots_keep_dimensions<W: MultibodyDynamics>(
    roots: Seq<MultibodyLinkId>,
    multibodies: Seq<Option<Multibody<W::Real>>>,
    world: W,
) -> bool {
    exists|valid: spec_fn(W) -> bool|
        {
            &&& valid(world)
            &&& #[trigger] steps_keep(roots, valid)
            &&& sizes_kept(valid, roots, multibodies)
        }
}

/// Whether two states have the same multibodies, of the same sizes and with the same solver ids,
/// and generic vectors of the same lengths.
pub open spec fn same_layout<W: MultibodyDynamics>(
    a: SolverState<W>,
    b: SolverState<W>,
) -> bool {
    &&& a.vels.len() == b.vels.len()
    &&& a.increment.len() == b.increment.len()
    &&& a.multibodies.len() == b.multibodies.len()
    &&& forall|i: int|
        0 <= i < a.multibodies.len() ==> match (#[trigger] a.multibodies[i], b.multibodies[i]) {
            (Some(x), Some(y)) => {
                &&& x.solver_id == y.solver_id
                &&& x.dofs() == y.dofs()
                &&& x.root_is_dynamic == y.root_is_dynamic
            },
            (None, None) => true,
            _ => false,
        }
}

/// Whether `post` is `pre` once the multibody of one root has been prepared for a step: its link
/// velocities, mass matrix and accelerations are brought up to date, in this order. Its rows of
/// the increment become `dt` times the accelerations, its rows of the velocities a copy of its
/// own.
pub open spec fn root_prepared<W: MultibodyDynamics>(
    link: MultibodyLinkId,
    dt: W::Real,
    pre: SolverState<W>,
    post: SolverState<W>,
) -> bool {
    let index = link.multibody;
    let multibody = multibody_at(pre.multibodies, index);
    exists|moved: W, weighed: W, out: (W, Vec<W::Real>)|
        {
            &&& #[trigger] call_ensures(
                W::update_velocities,
                (pre.world, index, &multibody),
                moved,
            )
            &&& #[trigger] call_ensures(
                W::update_mass_matrix,
                (moved, index, &multibody, dt),
                weighed,
            )
            &&& #[trigger] call_ensures(
                W::update_acceleration,
                (weighed, index, &multibody, dt),
                out,
            )
            &&& post.world == out.0
            &&& post.multibodies == pre.multibodies.update(
                index.0 as int,
                Some(Multibody { accelerations: out.1, ..multibody }),
            )
            &&& scaled_rows::<W>(
                pre.increment,
                multibody.solver_id as int,
                dt,
                out.1@,
                post.increment,
            )
            &&& post.vels == with_rows(
                pre.vels,
                multibody.solver_id as int,
                multibody.velocities@,
            )
        }
}

/// Whether `post` is `pre` once the roots have been prepared for a step, one after the other.
pub open spec fn roots_prepared<W: MultibodyDynamics>(
    roots: Seq<MultibodyLinkId>,
    dt: W::Real,
    pre: SolverState<W>,
    post: SolverState<W>,
) -> bool
    decreases roots.len(),
{
    if roots.len() == 0 {
        post == pre
    } else {
        exists|mid: SolverState<W>|
            {
                &&& roots_prepared(roots.drop_last(), dt, pre, mid)
                &&& #[trigger] root_prepared(roots.last(), dt, mid, post)
            }
    }
}

/// Whether the multibody of one root has been moved over a substep, up to the point where its
/// momentum is reconciled with the ledger. `out` holds what reconciliation returned.
pub open spec fn root_moved<W: MultibodyDynamics>(
    link: MultibodyLinkId,
    dt: W::Real,
    world: W,
    multibody: Multibody<W::Real>,
    increment: Vec<W::Real>,
    out: (W, Option<Vec<W::Real>>),
) -> bool {
    let index = link.multibody;
    exists|target: W::Momentum, integrated: W, posed: W, written: W, moved: W|
        {
            &&& momentum_ledger(world, index, multibody, increment, dt, target)
            &&& #[trigger] call_ensures(
                W::integrate,
                (world, index, &multibody, dt),
                integrated,
            )
            &&& #[trigger] call_ensures(
                W::forward_kinematics,
                (integrated, index, &multibody, false),
                posed,
            )
            &&& #[trigger] call_ensures(
                W::update_rigid_bodies_internal,
                (posed, index, &multibody, true, true, false),
                written,
            )
            &&& #[trigger] call_ensures(
                W::update_velocities,
                (written, index, &multibody),
                moved,
            )
            &&& #[trigger] call_ensures(
                W::reconcile_base_linear_momentum,
                (moved, index, &multibody, target),
                out,
            )
        }
}

/// Whether the mass matrix of one multibody has been recomputed and, unless this is the last
/// substep, its accelerations and its rows of the increment with it.
pub open spec fn root_refreshed<W: MultibodyDynamics>(
    link: MultibodyLinkId,
    dt: W::Real,
    is_last_substep: bool,
    world: W,
    multibody: Multibody<W::Real>,
    increment: Seq<W::Real>,
    world_after: W,
    multibody_after: Multibody<W::Real>,
    increment_after: Seq<W::Real>,
) -> bool {
    let index = link.multibody;
    exists|weighed: W|
        {
            &&& #[trigger] call_ensures(
                W::update_mass_matrix,
                (world, index, &multibody, dt),
                weighed,
            )
            &&& if is_last_substep {
                &&& world_after == weighed
                &&& multibody_after == multibody
                &&& increment_after == increment
            } else {
                &&& call_ensures(
                    W::update_acceleration,
                    (weighed, index, &multibody, dt),
                    (world_after, multibody_after.accelerations),
                )
                &&& multibody_after == (Multibody {
                    accelerations: multibody_after.accelerations,
                    ..multibody
                })
                &&& scaled_rows::<W>(
                    increment,
                    multibody.solver_id as int,
                    dt,
                    multibody_after.accelerations@,
                    increment_after,
                )
            }
        }
}

/// Whether a multibody enters a substep as `entering`, with `increment` among its velocities: both
/// are its rows of the generic vectors.
pub open spec fn enters_substep<W: MultibodyDynamics>(
    link: MultibodyLinkId,
    state: SolverState<W>,
    entering: Multibody<W::Real>,
    increment: Vec<W::Real>,
) -> bool {
    let initial = multibody_at(state.multibodies, link.multibody);
    let base = initial.solver_id as int;
    &&& entering == (Multibody { velocities: entering.velocities, ..initial })
    &&& entering.velocities@ == rows(state.vels, base, initial.dofs())
    &&& increment@ == rows(state.increment, base, initial.dofs())
}

/// A multibody after reconciliation: its velocities are the corrected ones, if there are any.
pub open spec fn corrected<R>(
    multibody: Multibody<R>,
    correction: Option<Vec<R>>,
) -> Multibody<R> {
    match correction {
        Some(velocities) => Multibody { velocities, ..multibody },
        None => multibody,
    }
}

/// Whether `post` is `pre` once the multibody of one root has been integrated over a substep.
///
/// The multibody takes its rows of the solver velocities for its own. It is moved, and its
/// momentum reconciled. If that corrected its velocities, its rows of the solver velocities
/// follow. Then its mass matrix and, unless this is the last substep, its increment are refreshed.
pub open spec fn root_integrated<W: MultibodyDynamics>(
    link: MultibodyLinkId,
    dt: W::Real,
    is_last_substep: bool,
    pre: SolverState<W>,
    post: SolverState<W>,
) -> bool {
    let index = link.multibody;
    let initial = multibody_at(pre.multibodies, index);
    let base = initial.solver_id as int;
    exists|
        entering: Multibody<W::Real>,
        increment: Vec<W::Real>,
        out: (W, Option<Vec<W::Real>>),
        last: Multibody<W::Real>,
    |
        {
            &&& enters_substep(link, pre, entering, increment)
            &&& #[trigger] root_moved(link, dt, pre.world, entering, increment, out)
            &&& post.vels == (match out.1 {
                Some(velocities) => with_rows(pre.vels, base, velocities@),
                None => pre.vels,
            })
            &&& #[trigger] root_refreshed(
                link,
                dt,
                is_last_substep,
                out.0,
                corrected(entering, out.1),
                pre.increment,
                post.world,
                last,
                post.increment,
            )
            &&& post.multibodies == pre.multibodies.update(index.0 as int, Some(last))
        }
}

/// Whether `post` is `pre` once the multibodies of the roots have been integrated over a substep,
/// one after the other.
pub open spec fn roots_integrated<W: MultibodyDynamics>(
    roots: Seq<MultibodyLinkId>,
    dt: W::Real,
    is_last_substep: bool,
    pre: SolverState<W>,
    post: SolverState<W>,
) -> bool
    decreases roots.len(),
{
    if roots.len() == 0 {
        post == pre
    } else {
        exists|mid: SolverState<W>|
            {
                &&& roots_integrated(roots.drop_last(), dt, is_last_substep, pre, mid)
                &&& #[trigger] root_integrated(roots.last(), dt, is_last_substep, mid, post)
            }
    }
}

proof fn lemma_roots_prepared_push<W: MultibodyDynamics>(
    roots: Seq<MultibodyLinkId>,
    link: MultibodyLinkId,
    dt: W::Real,
    pre: SolverState<W>,
    mid: SolverState<W>,
    post: SolverState<W>,
)
    requires
        roots_prepared(roots, dt, pre, mid),
        root_prepared(link, dt, mid, post),
    ensures
        roots_prepared(roots.push(link), dt, pre, post),
{
    assert(roots.push(link).drop_last() == roots);
    assert(root_prepared(roots.push(link).last(), dt, mid, post));
}

proof fn lemma_roots_integrated_push<W: MultibodyDynamics>(
    roots: Seq<MultibodyLinkId>,
    link: MultibodyLinkId,
    dt: W::Real,
    is_last_substep: bool,
    pre: SolverState<W>,
    mid: SolverState<W>,
    post: SolverState<W>,
)
    requires
        roots_integrated(roots, dt, is_last_substep, pre, mid),
        root_integrated(link, dt, is_last_substep, mid, post),
    ensures
        roots_integrated(roots.push(link), dt, is_last_substep, pre, post),
{
    assert(roots.push(link).drop_last() == roots);
    assert(root_integrated(roots.push(link).last(), dt, is_last_substep, mid, post));
}

/// The state that the roots of an island are prepared from: each root has its solver id, and the
/// generic vectors have one row, zero, for each degree of freedom.
pub open spec fn initial_state<W: MultibodyDynamics>(
    world: W,
    multibodies: MultibodyJointSet<W::Real>,
    island: Seq<RigidBodyHandle>,
    zero: W::Real,
) -> SolverState<W> {
    let roots = solver_roots(multibodies, island);
    let zeros = filled(total_dofs(multibodies.multibodies@, roots), zero);
    SolverState {
        world,
        multibodies: with_solver_ids(multibodies.multibodies@, roots),
        vels: zeros,
        increment: zeros,
    }
}

pub(crate) proof fn lemma_same_layout_fits<W: MultibodyDynamics>(
    valid: spec_fn(W) -> bool,
    roots: Seq<MultibodyLinkId>,
    a: SolverState<W>,
    b: SolverState<W>,
)
    requires
        same_layout(a, b),
        roots_fit(roots, a),
        sizes_kept(valid, roots, a.multibodies),
    ensures
        roots_fit(roots, b),
        sizes_kept(valid, roots, b.multibodies),
{
    assert forall|k: int| 0 <= k < roots.len() implies root_fits(#[trigger] roots[k], b) by {
        assert(root_fits(roots[k], a));
        assert(a.multibodies[roots[k].multibody.0 as int] is Some);
    }
    assert forall|k: int| 0 <= k < roots.len() implies keeps_dimensions(
        valid,
        (#[trigger] roots[k]).multibody,
        multibody_at(b.multibodies, roots[k].multibody).dofs(),
    ) by {
        assert(root_fits(roots[k], a));
        assert(a.multibodies[roots[k].multibody.0 as int] is Some);
    }
}

/// The worlds that the steps of the roots lead to.
pub(crate) proof fn lemma_reachable<W: MultibodyDynamics>(
    roots: Seq<MultibodyLinkId>,
    multibodies: Seq<Option<Multibody<W::Real>>>,
    world: W,
) -> (valid: spec_fn(W) -> bool)
    requires
        roots_keep_dimensions(roots, multibodies, world),
    ensures
        valid(world),
        steps_keep(roots, valid),
        sizes_kept(valid, roots, multibodies),
{
    choose|valid: spec_fn(W) -> bool|
        {
            &&& valid(world)
            &&& #[trigger] steps_keep(roots, valid)
            &&& sizes_kept(valid, roots, multibodies)
        }
}

/// What the steps of all the roots keep, those of one of them keep on their own.
pub(crate) proof fn lemma_steps_keep_one<W: MultibodyDynamics>(
    roots: Seq<MultibodyLinkId>,
    k: int,
    inv: spec_fn(W) -> bool,
)
    requires
        steps_keep(roots, inv),
        0 <= k < roots.len(),
    ensures
        steps_keep(seq![roots[k]], inv),
{
    let one = seq![roots[k]];
    assert forall|j: int, before: W, after: W|
        0 <= j < one.len() && inv(before) && #[trigger] steps_to(
            one[j].multibody,
            before,
            after,
        ) implies inv(after) by {
        assert(steps_to(roots[k].multibody, before, after));
    }
}

/// A step of one of the roots keeps what the steps of all of them keep.
pub(crate) proof fn lemma_step_kept<W: MultibodyDynamics>(
    roots: Seq<MultibodyLinkId>,
    k: int,
    inv: spec_fn(W) -> bool,
    before: W,
    after: W,
)
    requires
        steps_keep(roots, inv),
        0 <= k < roots.len(),
        inv(before),
        steps_to(roots[k].multibody, before, after),
    ensures
        inv(after),
{
}

/// The buffers of the velocity solver.
pub struct VelocitySolver<W: MultibodyDynamics> {
    /// The rigid bodies, padded to whole SIMD lane groups.
    pub solver_bodies: Vec<W::SolverBody>,
    /// What the velocity of each rigid body gains at the start of a substep.
    pub solver_vels_increment: Vec<W::SolverVel>,
    /// The gyroscopic parameters of each rigid body.
    pub solver_gyro: Vec<W::GyroParams>,
    /// The generalized velocities of the multibodies.
    pub generic_solver_vels: Vec<W::Real>,
    /// What the generalized velocities gain at the start of a substep.
    pub generic_solver_vels_increment: Vec<W::Real>,
    /// The links by which the multibodies of the island enter the solver.
    pub multibody_roots: Vec<MultibodyLinkId>,
}

impl<W: MultibodyDynamics> VelocitySolver<W> {
    /// What the multibody part of the solver reads and changes.
    pub open spec fn state(
        &self,
        world: W,
        multibodies: MultibodyJointSet<W::Real>,
    ) -> SolverState<W> {
        SolverState {
            world,
            multibodies: multibodies.multibodies@,
            vels: self.generic_solver_vels@,
            increment: self.generic_solver_vels_increment@,
        }
    }

    /// Whether this solver is what initialization makes of any solver.
    ///
    /// The roots are those of the island. The buffers have one slot for each rigid body, padded to
    /// whole SIMD lane groups, and hold nothing yet. The roots have been prepared, starting from
    /// generic vectors of zeros.
    pub open spec fn initialized_from(
        &self,
        dt: W::Real,
        island: Seq<RigidBodyHandle>,
        world: W,
        multibodies: MultibodyJointSet<W::Real>,
        world_after: W,
        multibodies_after: MultibodyJointSet<W::Real>,
    ) -> bool {
        let slots = aligned_len(island.len(), simd_lanes());
        &&& self.multibody_roots@ == solver_roots(multibodies, island)
        &&& exists|body: W::SolverBody|
            {
                &&& #[trigger] call_ensures(W::empty_solver_body, (), body)
                &&& self.solver_bodies@ == filled(slots, body)
            }
        &&& exists|vel: W::SolverVel|
            {
                &&& #[trigger] call_ensures(W::zero_solver_vel, (), vel)
                &&& self.solver_vels_increment@ == filled(slots, vel)
            }
        &&& exists|gyro: W::GyroParams|
            {
                &&& #[trigger] call_ensures(W::default_gyro_params, (), gyro)
                &&& self.solver_gyro@ == filled(slots, gyro)
            }
        &&& exists|zero: W::Real|
            {
                &&& #[trigger] call_ensures(W::zero, (), zero)
                &&& roots_prepared(
                    self.multibody_roots@,
                    dt,
                    initial_state(world, multibodies, island, zero),
                    self.state(world_after, multibodies_after),
                )
            }
    }

    /// Prepares the multibody of one root for a step.
    fn prepare_root(
        &mut self,
        link: MultibodyLinkId,
        dt: W::Real,
        world: W,
        multibodies: &mut MultibodyJointSet<W::Real>,
        Ghost(valid): Ghost<spec_fn(W) -> bool>,
    ) -> (out: W)
        requires
            valid(world),
            steps_keep(seq![link], valid),
            keeps_dimensions(
                valid,
                link.multibody,
                multibody_at(old(multibodies).multibodies@, link.multibody).dofs(),
            ),
            root_fits(link, old(self).state(world, *old(multibodies))),
        ensures
            valid(out),
            root_prepared(
                link,
                dt,
                old(self).state(world, *old(multibodies)),
                final(self).state(out, *final(multibodies)),
            ),
            same_layout(
                old(self).state(world, *old(multibodies)),
                final(self).state(out, *final(multibodies)),
            ),
            final(multibodies).rigid_body_links == old(multibodies).rigid_body_links,
            final(self).solver_bodies == old(self).solver_bodies,
            final(self).solver_vels_increment == old(self).solver_vels_increment,
            final(self).solver_gyro == old(self).solver_gyro,
            final(self).multibody_roots == old(self).multibody_roots,
    {
        let index = link.multibody;
        let multibody = multibodies.get_multibody_mut_internal(index).unwrap();
        let ghost roots = seq![link];
        let ghost before = world;
        let world = world.update_velocities(index, multibody);
        let ghost moved = world;
        let world = world.update_mass_matrix(index, multibody, dt);
        let ghost weighed = world;
        let (world, accelerations) = world.update_acceleration(index, multibody, dt);
        proof {
            lemma_step_kept(roots, 0, valid, before, moved);
            lemma_step_kept(roots, 0, valid, moved, weighed);
            let out = (world, accelerations);
            assert(call_ensures(
                W::update_acceleration,
                (weighed, index, &*multibody, dt),
                out,
            ));
            lemma_step_kept(roots, 0, valid, weighed, world);
        }
        multibody.accelerations = accelerations;
        let base: usize = multibody.solver_id as usize;
        write_scaled_rows::<W>(
            &mut self.generic_solver_vels_increment,
            base,
            dt,
            &multibody.accelerations,
        );
        write_rows(&mut self.generic_solver_vels, base, &multibody.velocities);
        world
    }

    /// Initializes the solver buffers and the multibody state of the solver. The rigid bodies
    /// themselves are copied to their slots elsewhere.
    pub fn init_solver_buffers_and_multibodies(
        &mut self,
        params: &IntegrationParameters<W::Real>,
        island_bodies: &[RigidBodyHandle],
        world: W,
        multibodies: &mut MultibodyJointSet<W::Real>,
    ) -> (out: W)
        requires
            roots_keep_dimensions(
                solver_roots(*old(multibodies), island_bodies@),
                old(multibodies).multibodies@,
                world,
            ),
            links_resolve(*old(multibodies), island_bodies@),
            total_dofs(
                old(multibodies).multibodies@,
                solver_roots(*old(multibodies), island_bodies@),
            ) <= u32::MAX,
            aligned_len(island_bodies@.len(), simd_lanes()) <= usize::MAX,
        ensures
            final(self).initialized_from(
                params.dt,
                island_bodies@,
                world,
                *old(multibodies),
                out,
                *final(multibodies),
            ),
            roots_fit(
                final(self).multibody_roots@,
                final(self).state(out, *final(multibodies)),
            ),
            roots_keep_dimensions(
                final(self).multibody_roots@,
                final(multibodies).multibodies@,
                out,
            ),
            final(multibodies).rigid_body_links == old(multibodies).rigid_body_links,
    {
        let aligned_solver_bodies_len: usize = align_to_simd(island_bodies.len());
        let body = W::empty_solver_body();
        refill(&mut self.solver_bodies, aligned_solver_bodies_len, body);
        let vel = W::zero_solver_vel();
        refill(&mut self.solver_vels_increment, aligned_solver_bodies_len, vel);
        // Every step starts from parameters without effect, so that the slots of multibodies and
        // of padding, which no body is copied to, have none.
        let gyro = W::default_gyro_params();
        refill(&mut self.solver_gyro, aligned_solver_bodies_len, gyro);

        let ghost initial = *multibodies;
        let ghost valid = lemma_reachable(
            solver_roots(initial, island_bodies@),
            initial.multibodies@,
            world,
        );
        let (roots, num_dofs) = assign_solver_ids(multibodies, island_bodies);
        let zero = W::zero();
        refill(&mut self.generic_solver_vels_increment, num_dofs as usize, zero);
        refill(&mut self.generic_solver_vels, num_dofs as usize, zero);
        let ghost pre = self.state(world, *multibodies);
        proof {
            lemma_roots_resolve(initial, island_bodies@);
            lemma_with_solver_ids(initial.multibodies@, roots@);
            assert(pre == initial_state(world, initial, island_bodies@, zero));
            assert forall|k: int| 0 <= k < roots@.len() implies root_fits(
                #[trigger] roots@[k],
                pre,
            ) by {
                assert(contains_multibody(initial.multibodies@, roots@[k].multibody));
            }
            assert forall|k: int| 0 <= k < roots@.len() implies keeps_dimensions(
                valid,
                (#[trigger] roots@[k]).multibody,
                multibody_at(pre.multibodies, roots@[k].multibody).dofs(),
            ) by {
                assert(contains_multibody(initial.multibodies@, roots@[k].multibody));
                assert(initial.multibodies@[roots@[k].multibody.0 as int] is Some);
            }
        }

        let mut world = world;
        let mut k: usize = 0;
        while k < roots.len()
            invariant
                k <= roots.len(),
                valid(world),
                steps_keep(roots@, valid),
                sizes_kept(valid, roots@, pre.multibodies),
                roots_prepared(
                    roots@.take(k as int),
                    params.dt,
                    pre,
                    self.state(world, *multibodies),
                ),
                same_layout(pre, self.state(world, *multibodies)),
                roots_fit(roots@, pre),
                multibodies.rigid_body_links == initial.rigid_body_links,
                self.solver_bodies@ == filled(aligned_solver_bodies_len as nat, body),
                self.solver_vels_increment@ == filled(aligned_solver_bodies_len as nat, vel),
                self.solver_gyro@ == filled(aligned_solver_bodies_len as nat, gyro),
            decreases roots.len() - k,
        {
            let ghost mid = self.state(world, *multibodies);
            proof {
                lemma_same_layout_fits(valid, roots@, pre, mid);
            }
            let link = roots[k];
            proof {
                lemma_steps_keep_one(roots@, k as int, valid);
            }
            world = self.prepare_root(link, params.dt, world, multibodies, Ghost(valid));
            proof {
                assert(roots@.take(k as int).push(link) == roots@.take(k + 1));
                lemma_roots_prepared_push(
                    roots@.take(k as int),
                    link,
                    params.dt,
                    pre,
                    mid,
                    self.state(world, *multibodies),
                );
            }
            k += 1;
        }
        proof {
            assert(roots@.take(k as int) == roots@);
            lemma_same_layout_fits(valid, roots@, pre, self.state(world, *multibodies));
        }
        self.multibody_roots = roots;
        world
    }

    /// Integrates the multibody of one root over a substep.
    fn integrate_root(
        &mut self,
        link: MultibodyLinkId,
        dt: W::Real,
        is_last_substep: bool,
        world: W,
        multibodies: &mut MultibodyJointSet<W::Real>,
        Ghost(valid): Ghost<spec_fn(W) -> bool>,
    ) -> (out: W)
        requires
            valid(world),
            steps_keep(seq![link], valid),
            keeps_dimensions(
                valid,
                link.multibody,
                multibody_at(old(multibodies).multibodies@, link.multibody).dofs(),
            ),
            root_fits(link, old(self).state(world, *old(multibodies))),
        ensures
            valid(out),
            root_integrated(
                link,
                dt,
                is_last_substep,
                old(self).state(world, *old(multibodies)),
                final(self).state(out, *final(multibodies)),
            ),
            same_layout(
                old(self).state(world, *old(multibodies)),
                final(self).state(out, *final(multibodies)),
            ),
            final(multibodies).rigid_body_links == old(multibodies).rigid_body_links,
            final(self).solver_bodies == old(self).solver_bodies,
            final(self).solver_vels_increment == old(self).solver_vels_increment,
            final(self).solver_gyro == old(self).solver_gyro,
            final(self).multibody_roots == old(self).multibody_roots,
    {
        let ghost pre = self.state(world, *multibodies);
        let index = link.multibody;
        let multibody = multibodies.get_multibody_mut_internal(index).unwrap();
        let base: usize = multibody.solver_id as usize;
        let ndofs: usize = multibody.ndofs();
        multibody.velocities = read_rows(&self.generic_solver_vels, base, ndofs);
        let increment = read_rows(&self.generic_solver_vels_increment, base, ndofs);
        let ghost entering = *multibody;

        // The ledger is read through the momentum map of the configuration that is left.
        let target = momentum_target(&world, index, multibody, &increment, dt);
        let ghost roots = seq![link];
        let world = world.integrate(index, multibody, dt);
        let ghost integrated = world;
        let world = world.forward_kinematics(index, multibody, false);
        let ghost posed = world;
        // The mass properties have to be fresh on every substep: the link velocities are derived
        // from them, and reconciliation needs those to match the jacobians exactly.
        let world = world.update_rigid_bodies_internal(index, multibody, true, true, false);
        let ghost written = world;
        let world = world.update_velocities(index, multibody);
        let ghost moved = world;
        let (world, correction) = world.reconcile_base_linear_momentum(index, multibody, target);
        let ghost out = (world, correction);
        assert(root_moved(link, dt, pre.world, entering, increment, out));
        proof {
            lemma_step_kept(roots, 0, valid, pre.world, integrated);
            lemma_step_kept(roots, 0, valid, integrated, posed);
            lemma_step_kept(roots, 0, valid, posed, written);
            lemma_step_kept(roots, 0, valid, written, moved);
            assert(call_ensures(
                W::reconcile_base_linear_momentum,
                (moved, index, &entering, target),
                out,
            ));
            lemma_step_kept(roots, 0, valid, moved, out.0);
        }
        if let Some(velocities) = correction {
            write_rows(&mut self.generic_solver_vels, base, &velocities);
            multibody.velocities = velocities;
        }

        // Also on the last substep: the stabilization that follows derives its constraints from
        // this mass matrix.
        let mut world = world.update_mass_matrix(index, multibody, dt);
        let ghost weighed = world;
        proof {
            lemma_step_kept(roots, 0, valid, out.0, weighed);
        }
        if !is_last_substep {
            let (updated, accelerations) = world.update_acceleration(index, multibody, dt);
            proof {
                let refreshed = (updated, accelerations);
                assert(call_ensures(
                    W::update_acceleration,
                    (weighed, index, &*multibody, dt),
                    refreshed,
                ));
                lemma_step_kept(roots, 0, valid, weighed, updated);
            }
            world = updated;
            write_scaled_rows::<W>(
                &mut self.generic_solver_vels_increment,
                base,
                dt,
                &accelerations,
            );
            multibody.accelerations = accelerations;
        }
        let ghost last = *multibody;
        let ghost post = self.state(world, *multibodies);
        assert(root_refreshed(
            link,
            dt,
            is_last_substep,
            out.0,
            corrected(entering, out.1),
            pre.increment,
            post.world,
            last,
            post.increment,
        ));
        assert(root_integrated(link, dt, is_last_substep, pre, post));
        world
    }

    /// Integrates the positions of the multibodies over a substep. The rigid bodies that belong
    /// to no multibody are integrated elsewhere.
    pub fn integrate_multibody_positions(
        &mut self,
        params: &IntegrationParameters<W::Real>,
        is_last_substep: bool,
        world: W,
        multibodies: &mut MultibodyJointSet<W::Real>,
    ) -> (out: W)
        requires
            roots_keep_dimensions(
                old(self).multibody_roots@,
                old(multibodies).multibodies@,
                world,
            ),
            roots_fit(old(self).multibody_roots@, old(self).state(world, *old(multibodies))),
        ensures
            roots_integrated(
                old(self).multibody_roots@,
                params.dt,
                is_last_substep,
                old(self).state(world, *old(multibodies)),
                final(self).state(out, *final(multibodies)),
            ),
            same_layout(
                old(self).state(world, *old(multibodies)),
                final(self).state(out, *final(multibodies)),
            ),
            roots_fit(
                final(self).multibody_roots@,
                final(self).state(out, *final(multibodies)),
            ),
            roots_keep_dimensions(
                final(self).multibody_roots@,
                final(multibodies).multibodies@,
                out,
            ),
            final(multibodies).rigid_body_links == old(multibodies).rigid_body_links,
            final(self).solver_bodies == old(self).solver_bodies,
            final(self).solver_vels_increment == old(self).solver_vels_increment,
            final(self).solver_gyro == old(self).solver_gyro,
            final(self).multibody_roots == old(self).multibody_roots,
    {
        let ghost pre = self.state(world, *multibodies);
        let ghost roots = self.multibody_roots@;
        let ghost valid = lemma_reachable(roots, pre.multibodies, world);
        let mut world = world;
        let mut k: usize = 0;
        while k < self.multibody_roots.len()
            invariant
                k <= roots.len(),
                valid(world),
                steps_keep(roots, valid),
                sizes_kept(valid, roots, pre.multibodies),
                roots == self.multibody_roots@,
                roots_integrated(
                    roots.take(k as int),
                    params.dt,
                    is_last_substep,
                    pre,
                    self.state(world, *multibodies),
                ),
                same_layout(pre, self.state(world, *multibodies)),
                roots_fit(roots, pre),
                multibodies.rigid_body_links == old(multibodies).rigid_body_links,
                self.solver_bodies == old(self).solver_bodies,
                self.solver_vels_increment == old(self).solver_vels_increment,
                self.solver_gyro == old(self).solver_gyro,
                self.multibody_roots == old(self).multibody_roots,
            decreases roots.len() - k,
        {
            let ghost mid = self.state(world, *multibodies);
            proof {
                lemma_same_layout_fits(valid, roots, pre, mid);
            }
            let link = self.multibody_roots[k];
            proof {
                lemma_steps_keep_one(roots, k as int, valid);
            }
            world =
            self.integrate_root(
                link,
                params.dt,
                is_last_substep,
                world,
                multibodies,
                Ghost(valid),
            );
            proof {
                assert(roots.take(k as int).push(link) == roots.take(k + 1));
                lemma_roots_integrated_push(
                    roots.take(k as int),
                    link,
                    params.dt,
                    is_last_substep,
                    pre,
                    mid,
                    self.state(world, *multibodies),
                );
            }
            k += 1;
        }
        proof {
            assert(roots.take(k as int) == roots);
            lemma_same_layout_fits(valid, roots, pre, self.state(world, *multibodies));
        }
        world
    }
}

} // verus!
