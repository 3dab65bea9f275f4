//! What the results of initialization and of a substep depend on, and what they agree with.

use crate::dynamics::MultibodyDynamics;
use crate::multibody::{
    Multibody, MultibodyIndex, MultibodyJointSet, MultibodyLinkId, RigidBodyHandle,
};
use crate::velocity_solver::VelocitySolver;
use vstd::prelude::*;

verus! {

broadcast use vstd::seq_lib::group_seq_properties;

use crate::buffers::{law_aligned_len, with_rows};
use crate::dynamics::{balances, momentum_ledger, steps_to};
use crate::multibody::{contains_multibody, multibody_at};
use crate::solver_laws::{
    disjoint_rows, distinct_roots, lemma_entry_kept, lemma_root_trace, lemma_roots_keep,
    lemma_split_integrated, lemma_trace_steps, traces, RootTrace,
};
use crate::velocity_solver::{
    corrected, enters_substep, initial_state, lemma_roots_resolve, lemma_with_solver_ids,
    links_resolve, root_fits, root_integrated, root_prepared, roots_fit, roots_integrated,
    roots_keep_dimensions, roots_prepared, roots_resolve, same_layout, scaled_rows, solver_root,
    solver_roots, steps_keep, total_dofs, with_solver_ids, SolverState,
};

/// Whether two multibodies hold the same values.
pub open spec fn same_multibody<R>(a: Multibody<R>, b: Multibody<R>) -> bool {
    &&& a.root_is_dynamic == b.root_is_dynamic
    &&& a.solver_id == b.solver_id
    &&& a.velocities@ == b.velocities@
    &&& a.accelerations@ == b.accelerations@
}

/// Whether two multibodies hold the same values but for their accelerations.
pub open spec fn same_motion<R>(a: Multibody<R>, b: Multibody<R>) -> bool {
    &&& a.root_is_dynamic == b.root_is_dynamic
    &&& a.solver_id == b.solver_id
    &&& a.velocities@ == b.velocities@
}

/// Whether two lists of multibodies hold the same values.
pub open spec fn same_multibodies<R>(
    a: Seq<Option<Multibody<R>>>,
    b: Seq<Option<Multibody<R>>>,
) -> bool {
    &&& a.len() == b.len()
    &&& forall|i: int|
        0 <= i < a.len() ==> match (#[trigger] a[i], b[i]) {
            (Some(x), Some(y)) => same_multibody(x, y),
            (None, None) => true,
            _ => false,
        }
}

/// Whether two lists of multibodies hold the same values but for the accelerations.
pub open spec fn same_motions<R>(
    a: Seq<Option<Multibody<R>>>,
    b: Seq<Option<Multibody<R>>>,
) -> bool {
    &&& a.len() == b.len()
    &&& forall|i: int|
        0 <= i < a.len() ==> match (#[trigger] a[i], b[i]) {
            (Some(x), Some(y)) => same_motion(x, y),
            (None, None) => true,
            _ => false,
        }
}

/// Whether two corrections hold the same velocities.
pub open spec fn same_correction<R>(a: Option<Vec<R>>, b: Option<Vec<R>>) -> bool {
    match (a, b) {
        (Some(x), Some(y)) => x@ == y@,
        (None, None) => true,
        _ => false,
    }
}

/// Whether the steps of preparation give the same results on the same values. `same` tells which
/// worlds count as the same.
pub open spec fn prepares_alike<W: MultibodyDynamics>(same: spec_fn(W, W) -> bool) -> bool {
    &&& forall|a: W::Real, b: W::Real| #[trigger]
        call_ensures(W::zero, (), a) && #[trigger] call_ensures(W::zero, (), b) ==> a == b
    &&& forall|a: W::SolverBody, b: W::SolverBody| #[trigger]
        call_ensures(W::empty_solver_body, (), a) && #[trigger] call_ensures(
            W::empty_solver_body,
            (),
            b,
        ) ==> a == b
    &&& forall|a: W::SolverVel, b: W::SolverVel| #[trigger]
        call_ensures(W::zero_solver_vel, (), a) && #[trigger] call_ensures(
            W::zero_solver_vel,
            (),
            b,
        ) ==> a == b
    &&& forall|a: W::GyroParams, b: W::GyroParams| #[trigger]
        call_ensures(W::default_gyro_params, (), a) && #[trigger] call_ensures(
            W::default_gyro_params,
            (),
            b,
        ) ==> a == b
    &&& forall|x: W::Real, y: W::Real, a: W::Real, b: W::Real| #[trigger]
        call_ensures(W::product, (x, y), a) && #[trigger] call_ensures(W::product, (x, y), b)
            ==> a == b
    &&& forall|
        index: MultibodyIndex,
        v: W,
        w: W,
        m: Multibody<W::Real>,
        n: Multibody<W::Real>,
        a: W,
        b: W,
    |
        same(v, w) && same_multibody(m, n) && #[trigger] call_ensures(
            W::update_velocities,
            (v, index, &m),
            a,
        ) && #[trigger] call_ensures(W::update_velocities, (w, index, &n), b) ==> same(a, b)
    &&& forall|
        index: MultibodyIndex,
        v: W,
        w: W,
        m: Multibody<W::Real>,
        n: Multibody<W::Real>,
        dt: W::Real,
        a: W,
        b: W,
    |
        same(v, w) && same_multibody(m, n) && #[trigger] call_ensures(
            W::update_mass_matrix,
            (v, index, &m, dt),
            a,
        ) && #[trigger] call_ensures(W::update_mass_matrix, (w, index, &n, dt), b) ==> same(a, b)
    &&& forall|
        index: MultibodyIndex,
        v: W,
        w: W,
        m: Multibody<W::Real>,
        n: Multibody<W::Real>,
        dt: W::Real,
        a: (W, Vec<W::Real>),
        b: (W, Vec<W::Real>),
    |
        same(v, w) && same_multibody(m, n) && #[trigger] call_ensures(
            W::update_acceleration,
            (v, index, &m, dt),
            a,
        ) && #[trigger] call_ensures(W::update_acceleration, (w, index, &n, dt), b) ==> same(
            a.0,
            b.0,
        ) && a.1@ == b.1@
}

/// Whether two states hold the same values.
pub open spec fn same_state<W: MultibodyDynamics>(
    same: spec_fn(W, W) -> bool,
    a: SolverState<W>,
    b: SolverState<W>,
) -> bool {
    &&& same(a.world, b.world)
    &&& same_multibodies(a.multibodies, b.multibodies)
    &&& a.vels == b.vels
    &&& a.increment == b.increment
}

proof fn lemma_scaled_rows_alike<W: MultibodyDynamics>(
    same: spec_fn(W, W) -> bool,
    pre: Seq<W::Real>,
    base: int,
    dt: W::Real,
    values: Seq<W::Real>,
    a: Seq<W::Real>,
    b: Seq<W::Real>,
)
    requires
        prepares_alike(same),
        scaled_rows::<W>(pre, base, dt, values, a),
        scaled_rows::<W>(pre, base, dt, values, b),
    ensures
        a == b,
{
    assert forall|i: int| 0 <= i < a.len() implies a[i] == b[i] by {
        if base <= i < base + values.len() {
            let k = i - base;
            assert(call_ensures(W::product, (dt, values[k]), a[base + k]));
            assert(call_ensures(W::product, (dt, values[k]), b[base + k]));
        } else {
            assert(a[i] == pre[i]);
            assert(b[i] == pre[i]);
        }
    }
    assert(a =~= b);
}

proof fn lemma_root_prepared_alike<W: MultibodyDynamics>(
    same: spec_fn(W, W) -> bool,
    link: MultibodyLinkId,
    dt: W::Real,
    pre_a: SolverState<W>,
    post_a: SolverState<W>,
    pre_b: SolverState<W>,
    post_b: SolverState<W>,
)
    requires
        prepares_alike(same),
        same_state(same, pre_a, pre_b),
        root_fits(link, pre_a),
        root_prepared(link, dt, pre_a, post_a),
        root_prepared(link, dt, pre_b, post_b),
    ensures
        same_state(same, post_a, post_b),
        same_layout(pre_a, post_a),
{
    let index = link.multibody;
    let i = index.0 as int;
    let m = multibody_at(pre_a.multibodies, index);
    let n = multibody_at(pre_b.multibodies, index);
    assert(pre_a.multibodies[i] is Some);
    assert(same_multibody(m, n));
    let (moved_a, weighed_a, out_a) = choose|moved: W, weighed: W, out: (W, Vec<W::Real>)|
        {
            &&& #[trigger] call_ensures(W::update_velocities, (pre_a.world, index, &m), moved)
            &&& #[trigger] call_ensures(W::update_mass_matrix, (moved, index, &m, dt), weighed)
            &&& #[trigger] call_ensures(W::update_acceleration, (weighed, index, &m, dt), out)
            &&& post_a.world == out.0
            &&& post_a.multibodies == pre_a.multibodies.update(
                i,
                Some(Multibody { accelerations: out.1, ..m }),
            )
            &&& scaled_rows::<W>(
                pre_a.increment,
                m.solver_id as int,
                dt,
                out.1@,
                post_a.increment,
            )
            &&& post_a.vels == with_rows(pre_a.vels, m.solver_id as int, m.velocities@)
        };
    let (moved_b, weighed_b, out_b) = choose|moved: W, weighed: W, out: (W, Vec<W::Real>)|
        {
            &&& #[trigger] call_ensures(W::update_velocities, (pre_b.world, index, &n), moved)
            &&& #[trigger] call_ensures(W::update_mass_matrix, (moved, index, &n, dt), weighed)
            &&& #[trigger] call_ensures(W::update_acceleration, (weighed, index, &n, dt), out)
            &&& post_b.world == out.0
            &&& post_b.multibodies == pre_b.multibodies.update(
                i,
                Some(Multibody { accelerations: out.1, ..n }),
            )
            &&& scaled_rows::<W>(
                pre_b.increment,
                n.solver_id as int,
                dt,
                out.1@,
                post_b.increment,
            )
            &&& post_b.vels == with_rows(pre_b.vels, n.solver_id as int, n.velocities@)
        };
    assert(same(moved_a, moved_b));
    assert(same(weighed_a, weighed_b));
    assert(out_a.1@ == out_b.1@);
    lemma_scaled_rows_alike(
        same,
        pre_a.increment,
        m.solver_id as int,
        dt,
        out_a.1@,
        post_a.increment,
        post_b.increment,
    );
    assert forall|j: int| 0 <= j < post_a.multibodies.len() implies match (
        #[trigger] post_a.multibodies[j],
        post_b.multibodies[j],
    ) {
        (Some(x), Some(y)) => same_multibody(x, y),
        (None, None) => true,
        _ => false,
    } by {
        if j != i {
            assert(pre_a.multibodies[j] == post_a.multibodies[j]);
        }
    }
}

proof fn lemma_roots_prepared_alike<W: MultibodyDynamics>(
    same: spec_fn(W, W) -> bool,
    roots: Seq<MultibodyLinkId>,
    dt: W::Real,
    pre: SolverState<W>,
    post_a: SolverState<W>,
    post_b: SolverState<W>,
)
    requires
        prepares_alike(same),
        same(pre.world, pre.world),
        roots_fit(roots, pre),
        roots_prepared(roots, dt, pre, post_a),
        roots_prepared(roots, dt, pre, post_b),
    ensures
        same_state(same, post_a, post_b),
        same_layout(pre, post_a),
    decreases roots.len(),
{
    if roots.len() > 0 {
        let front = roots.drop_last();
        let n = roots.len() - 1;
        assert forall|k: int| 0 <= k < front.len() implies root_fits(#[trigger] front[k], pre) by {
            assert(front[k] == roots[k]);
        }
        let mid_a = choose|mid: SolverState<W>|
            {
                &&& roots_prepared(front, dt, pre, mid)
                &&& #[trigger] root_prepared(roots.last(), dt, mid, post_a)
            };
        let mid_b = choose|mid: SolverState<W>|
            {
                &&& roots_prepared(front, dt, pre, mid)
                &&& #[trigger] root_prepared(roots.last(), dt, mid, post_b)
            };
        lemma_roots_prepared_alike(same, front, dt, pre, mid_a, mid_b);
        assert(root_fits(roots[n], pre));
        assert(pre.multibodies[roots[n].multibody.0 as int] is Some);
        lemma_root_prepared_alike(same, roots.last(), dt, mid_a, post_a, mid_b, post_b);
        assert forall|i: int| 0 <= i < pre.multibodies.len() implies match (
            #[trigger] pre.multibodies[i],
            post_a.multibodies[i],
        ) {
            (Some(x), Some(y)) => {
                &&& x.solver_id == y.solver_id
                &&& x.dofs() == y.dofs()
                &&& x.root_is_dynamic == y.root_is_dynamic
            },
            (None, None) => true,
            _ => false,
        } by {
            assert(mid_a.multibodies[i] is Some == pre.multibodies[i] is Some);
        }
    }
}

/// Initialization depends on its arguments alone: whatever two solvers held before, if the steps
/// of preparation give the same results on the same values, the two come out with the same roots,
/// the same buffers and the same generic vectors, and so do the worlds and the multibodies.
pub proof fn law_initialization_forgets<W: MultibodyDynamics>(
    same: spec_fn(W, W) -> bool,
    dt: W::Real,
    island: Seq<RigidBodyHandle>,
    world: W,
    multibodies: MultibodyJointSet<W::Real>,
    solver_a: VelocitySolver<W>,
    world_a: W,
    multibodies_a: MultibodyJointSet<W::Real>,
    solver_b: VelocitySolver<W>,
    world_b: W,
    multibodies_b: MultibodyJointSet<W::Real>,
)
    requires
        prepares_alike(same),
        same(world, world),
        links_resolve(multibodies, island),
        total_dofs(multibodies.multibodies@, solver_roots(multibodies, island)) <= u32::MAX,
        solver_a.initialized_from(dt, island, world, multibodies, world_a, multibodies_a),
        solver_b.initialized_from(dt, island, world, multibodies, world_b, multibodies_b),
    ensures
        solver_a.multibody_roots@ == solver_b.multibody_roots@,
        solver_a.solver_bodies@ == solver_b.solver_bodies@,
        solver_a.solver_vels_increment@ == solver_b.solver_vels_increment@,
        solver_a.solver_gyro@ == solver_b.solver_gyro@,
        solver_a.generic_solver_vels@ == solver_b.generic_solver_vels@,
        solver_a.generic_solver_vels_increment@ == solver_b.generic_solver_vels_increment@,
        same(world_a, world_b),
        same_multibodies(multibodies_a.multibodies@, multibodies_b.multibodies@),
{
    let roots = solver_roots(multibodies, island);
    let post_a = solver_a.state(world_a, multibodies_a);
    let post_b = solver_b.state(world_b, multibodies_b);
    let zero = choose|zero: W::Real|
        {
            &&& #[trigger] call_ensures(W::zero, (), zero)
            &&& roots_prepared(
                roots,
                dt,
                initial_state(world, multibodies, island, zero),
                post_a,
            )
        };
    let pre = initial_state(world, multibodies, island, zero);
    assert(roots_prepared(roots, dt, pre, post_b));
    lemma_roots_resolve(multibodies, island);
    lemma_with_solver_ids(multibodies.multibodies@, roots);
    assert forall|k: int| 0 <= k < roots.len() implies root_fits(#[trigger] roots[k], pre) by {
        assert(contains_multibody(multibodies.multibodies@, roots[k].multibody));
    }
    lemma_roots_prepared_alike(same, roots, dt, pre, post_a, post_b);
}

/// Whether the steps of a substep give the same results on the same values. `same` tells which
/// worlds count as the same.
pub open spec fn integrates_alike<W: MultibodyDynamics>(same: spec_fn(W, W) -> bool) -> bool {
    &&& forall|x: W::Momentum, y: W::Momentum, a: W::Momentum, b: W::Momentum| #[trigger]
        call_ensures(W::momentum_sum, (x, y), a) && #[trigger] call_ensures(
            W::momentum_sum,
            (x, y),
            b,
        ) ==> a == b
    &&& forall|x: W::Momentum, y: W::Momentum, a: W::Momentum, b: W::Momentum| #[trigger]
        call_ensures(W::momentum_difference, (x, y), a) && #[trigger] call_ensures(
            W::momentum_difference,
            (x, y),
            b,
        ) ==> a == b
    &&& forall|force: W::Force, dt: W::Real, a: W::Momentum, b: W::Momentum| #[trigger]
        call_ensures(W::impulse_of, (force, dt), a) && #[trigger] call_ensures(
            W::impulse_of,
            (force, dt),
            b,
        ) ==> a == b
    &&& forall|
        index: MultibodyIndex,
        v: W,
        w: W,
        m: Multibody<W::Real>,
        n: Multibody<W::Real>,
        a: W::Momentum,
        b: W::Momentum,
    |
        same(v, w) && same_multibody(m, n) && #[trigger] call_ensures(
            W::linear_momentum,
            (&v, index, &m),
            a,
        ) && #[trigger] call_ensures(W::linear_momentum, (&w, index, &n), b) ==> a == b
    &&& forall|
        index: MultibodyIndex,
        v: W,
        w: W,
        m: Multibody<W::Real>,
        n: Multibody<W::Real>,
        x: Vec<W::Real>,
        y: Vec<W::Real>,
        a: W::Momentum,
        b: W::Momentum,
    |
        same(v, w) && same_multibody(m, n) && x@ == y@ && #[trigger] call_ensures(
            W::map_momentum,
            (&v, index, &m, &x),
            a,
        ) && #[trigger] call_ensures(W::map_momentum, (&w, index, &n, &y), b) ==> a == b
    &&& forall|
        index: MultibodyIndex,
        v: W,
        w: W,
        m: Multibody<W::Real>,
        n: Multibody<W::Real>,
        a: W::Force,
        b: W::Force,
    |
        same(v, w) && same_multibody(m, n) && #[trigger] call_ensures(
            W::total_external_force,
            (&v, index, &m),
            a,
        ) && #[trigger] call_ensures(W::total_external_force, (&w, index, &n), b) ==> a == b
    &&& forall|
        index: MultibodyIndex,
        v: W,
        w: W,
        m: Multibody<W::Real>,
        n: Multibody<W::Real>,
        dt: W::Real,
        a: W,
        b: W,
    |
        same(v, w) && same_multibody(m, n) && #[trigger] call_ensures(
            W::integrate,
            (v, index, &m, dt),
            a,
        ) && #[trigger] call_ensures(W::integrate, (w, index, &n, dt), b) ==> same(a, b)
    &&& forall|
        index: MultibodyIndex,
        v: W,
        w: W,
        m: Multibody<W::Real>,
        n: Multibody<W::Real>,
        a: W,
        b: W,
    |
        same(v, w) && same_multibody(m, n) && #[trigger] call_ensures(
            W::forward_kinematics,
            (v, index, &m, false),
            a,
        ) && #[trigger] call_ensures(W::forward_kinematics, (w, index, &n, false), b) ==> same(
            a,
            b,
        )
    &&& forall|
        index: MultibodyIndex,
        v: W,
        w: W,
        m: Multibody<W::Real>,
        n: Multibody<W::Real>,
        a: W,
        b: W,
    |
        same(v, w) && same_multibody(m, n) && #[trigger] call_ensures(
            W::update_rigid_bodies_internal,
            (v, index, &m, true, true, false),
            a,
        ) && #[trigger] call_ensures(
            W::update_rigid_bodies_internal,
            (w, index, &n, true, true, false),
            b,
        ) ==> same(a, b)
    &&& forall|
        index: MultibodyIndex,
        v: W,
        w: W,
        m: Multibody<W::Real>,
        n: Multibody<W::Real>,
        a: W,
        b: W,
    |
        same(v, w) && same_multibody(m, n) && #[trigger] call_ensures(
            W::update_velocities,
            (v, index, &m),
            a,
        ) && #[trigger] call_ensures(W::update_velocities, (w, index, &n), b) ==> same(a, b)
    &&& forall|
        index: MultibodyIndex,
        v: W,
        w: W,
        m: Multibody<W::Real>,
        n: Multibody<W::Real>,
        target: W::Momentum,
        a: (W, Option<Vec<W::Real>>),
        b: (W, Option<Vec<W::Real>>),
    |
        same(v, w) && same_multibody(m, n) && #[trigger] call_ensures(
            W::reconcile_base_linear_momentum,
            (v, index, &m, target),
            a,
        ) && #[trigger] call_ensures(
            W::reconcile_base_linear_momentum,
            (w, index, &n, target),
            b,
        ) ==> same(a.0, b.0) && same_correction(a.1, b.1)
    &&& forall|
        index: MultibodyIndex,
        v: W,
        w: W,
        m: Multibody<W::Real>,
        n: Multibody<W::Real>,
        dt: W::Real,
        a: W,
        b: W,
    |
        same(v, w) && same_multibody(m, n) && #[trigger] call_ensures(
            W::update_mass_matrix,
            (v, index, &m, dt),
            a,
        ) && #[trigger] call_ensures(W::update_mass_matrix, (w, index, &n, dt), b) ==> same(a, b)
}

/// Whether the recomputation of accelerations changes nothing that `same` looks at.
pub open spec fn accelerations_apart<W: MultibodyDynamics>(same: spec_fn(W, W) -> bool) -> bool {
    forall|
        index: MultibodyIndex,
        v: W,
        w: W,
        multibody: Multibody<W::Real>,
        dt: W::Real,
        out: (W, Vec<W::Real>),
    |
        #[trigger] same(v, w) && #[trigger] call_ensures(
            W::update_acceleration,
            (w, index, &multibody, dt),
            out,
        ) ==> same(v, out.0)
}

proof fn lemma_ledger_alike<W: MultibodyDynamics>(
    same: spec_fn(W, W) -> bool,
    index: MultibodyIndex,
    v: W,
    w: W,
    m: Multibody<W::Real>,
    n: Multibody<W::Real>,
    x: Vec<W::Real>,
    y: Vec<W::Real>,
    dt: W::Real,
    target_a: W::Momentum,
    target_b: W::Momentum,
)
    requires
        integrates_alike(same),
        same(v, w),
        same_multibody(m, n),
        x@ == y@,
        momentum_ledger(v, index, m, x, dt, target_a),
        momentum_ledger(w, index, n, y, dt, target_b),
    ensures
        target_a == target_b,
{
    let (momentum_a, mapped_a, force_a) = choose|
        momentum: W::Momentum,
        mapped: W::Momentum,
        force: W::Force,
    |
        {
            &&& #[trigger] call_ensures(W::linear_momentum, (&v, index, &m), momentum)
            &&& #[trigger] call_ensures(W::map_momentum, (&v, index, &m, &x), mapped)
            &&& #[trigger] call_ensures(W::total_external_force, (&v, index, &m), force)
            &&& balances::<W>(momentum, mapped, force, dt, target_a)
        };
    let (momentum_b, mapped_b, force_b) = choose|
        momentum: W::Momentum,
        mapped: W::Momentum,
        force: W::Force,
    |
        {
            &&& #[trigger] call_ensures(W::linear_momentum, (&w, index, &n), momentum)
            &&& #[trigger] call_ensures(W::map_momentum, (&w, index, &n, &y), mapped)
            &&& #[trigger] call_ensures(W::total_external_force, (&w, index, &n), force)
            &&& balances::<W>(momentum, mapped, force, dt, target_b)
        };
    assert(momentum_a == momentum_b);
    assert(mapped_a == mapped_b);
    assert(force_a == force_b);
}

/// Whether two states agree on everything but accelerations and increment.
pub open spec fn same_but_accelerations<W: MultibodyDynamics>(
    same: spec_fn(W, W) -> bool,
    a: SolverState<W>,
    b: SolverState<W>,
) -> bool {
    &&& same(a.world, b.world)
    &&& same_motions(a.multibodies, b.multibodies)
    &&& a.vels == b.vels
}

proof fn lemma_traces_alike<W: MultibodyDynamics>(
    same: spec_fn(W, W) -> bool,
    link: MultibodyLinkId,
    dt: W::Real,
    pre: SolverState<W>,
    a: RootTrace<W>,
    mid_a: SolverState<W>,
    post_a: SolverState<W>,
    b: RootTrace<W>,
    mid_b: SolverState<W>,
    post_b: SolverState<W>,
)
    requires
        integrates_alike(same),
        accelerations_apart(same),
        same_but_accelerations(same, mid_a, mid_b),
        root_fits(link, mid_a),
        traces(a, link, dt, true, mid_a, post_a),
        traces(b, link, dt, false, mid_b, post_b),
        enters_substep(link, pre, a.entering, a.increment),
        enters_substep(link, pre, b.entering, b.increment),
    ensures
        same_but_accelerations(same, post_a, post_b),
{
    let index = link.multibody;
    let i = index.0 as int;
    assert(mid_a.multibodies[i] is Some);
    assert(same_multibody(a.entering, b.entering));
    assert(a.increment@ == b.increment@);
    lemma_ledger_alike(
        same,
        index,
        mid_a.world,
        mid_b.world,
        a.entering,
        b.entering,
        a.increment,
        b.increment,
        dt,
        a.target,
        b.target,
    );
    assert(same(a.integrated, b.integrated));
    assert(same(a.posed, b.posed));
    assert(same(a.written, b.written));
    assert(same(a.moved, b.moved));
    assert(same(a.out.0, b.out.0) && same_correction(a.out.1, b.out.1));
    assert(same_multibody(corrected(a.entering, a.out.1), corrected(b.entering, b.out.1)));
    assert(same(a.weighed, b.weighed));
    assert(same(post_a.world, post_b.world));
    assert(post_a.vels == post_b.vels);
    assert forall|j: int| 0 <= j < post_a.multibodies.len() implies match (
        #[trigger] post_a.multibodies[j],
        post_b.multibodies[j],
    ) {
        (Some(x), Some(y)) => same_motion(x, y),
        (None, None) => true,
        _ => false,
    } by {
        if j != i {
            assert(mid_a.multibodies[j] == post_a.multibodies[j]);
        }
    }
}

/// The last substep differs from any other in the accelerations and the increment alone: from the
/// same state, the solver velocities, the motions of the multibodies and whatever `same` looks at
/// in the world come out the same.
pub proof fn law_last_substep<W: MultibodyDynamics>(
    same: spec_fn(W, W) -> bool,
    roots: Seq<MultibodyLinkId>,
    dt: W::Real,
    pre: SolverState<W>,
    post_last: SolverState<W>,
    post_other: SolverState<W>,
)
    requires
        integrates_alike(same),
        accelerations_apart(same),
        same(pre.world, pre.world),
        roots_keep_dimensions(roots, pre.multibodies, pre.world),
        distinct_roots(roots),
        disjoint_rows(pre.multibodies, roots),
        roots_fit(roots, pre),
        roots_integrated(roots, dt, true, pre, post_last),
        roots_integrated(roots, dt, false, pre, post_other),
    ensures
        same_but_accelerations(same, post_last, post_other),
    decreases roots.len(),
{
    if roots.len() > 0 {
        let front = roots.drop_last();
        let n = roots.len() - 1;
        let mid_a = lemma_split_integrated(roots, dt, true, pre, post_last);
        let mid_b = lemma_split_integrated(roots, dt, false, pre, post_other);
        law_last_substep(same, front, dt, pre, mid_a, mid_b);
        assert(root_fits(roots[n], pre));
        let a = lemma_root_trace(roots.last(), dt, true, mid_a, post_last);
        let b = lemma_root_trace(roots.last(), dt, false, mid_b, post_other);
        lemma_entry_kept(roots, pre, mid_a, a.entering, a.increment);
        lemma_entry_kept(roots, pre, mid_b, b.entering, b.increment);
        lemma_traces_alike(
            same,
            roots.last(),
            dt,
            pre,
            a,
            mid_a,
            post_last,
            b,
            mid_b,
            post_other,
        );
    }
}

/// Whether what a world holds of the links of a multibody fits: their poses are `placed`, their
/// mass properties are `weighed` there, and they are `moving` with the generalized velocities.
pub open spec fn links_fit<W: MultibodyDynamics>(
    placed: spec_fn(W, MultibodyIndex) -> bool,
    weighed: spec_fn(W, MultibodyIndex) -> bool,
    moving: spec_fn(W, MultibodyIndex, Seq<W::Real>) -> bool,
    index: MultibodyIndex,
    world: W,
    velocities: Seq<W::Real>,
) -> bool {
    &&& placed(world, index)
    &&& weighed(world, index)
    &&& moving(world, index, velocities)
}

/// Whether the steps of a multibody do for its links what they are there for.
///
/// Forward kinematics derives the poses from the coordinates. Writing the rigid bodies, with their
/// mass properties, places and weighs the links. Deriving the velocities sets them moving.
/// Reconciliation leaves them moving with the velocities that it returns. The mass matrix and the
/// accelerations have no part in this.
pub open spec fn refreshes_links<W: MultibodyDynamics>(
    valid: spec_fn(W) -> bool,
    posed: spec_fn(W, MultibodyIndex) -> bool,
    placed: spec_fn(W, MultibodyIndex) -> bool,
    weighed: spec_fn(W, MultibodyIndex) -> bool,
    moving: spec_fn(W, MultibodyIndex, Seq<W::Real>) -> bool,
    index: MultibodyIndex,
) -> bool {
    &&& forall|world: W, multibody: Multibody<W::Real>, out: W|
        valid(world) && #[trigger] call_ensures(
            W::forward_kinematics,
            (world, index, &multibody, false),
            out,
        ) ==> posed(out, index)
    &&& forall|world: W, multibody: Multibody<W::Real>, out: W|
        valid(world) && posed(world, index) && #[trigger] call_ensures(
            W::update_rigid_bodies_internal,
            (world, index, &multibody, true, true, false),
            out,
        ) ==> placed(out, index) && weighed(out, index)
    &&& forall|world: W, multibody: Multibody<W::Real>, out: W|
        valid(world) && placed(world, index) && weighed(world, index) && #[trigger] call_ensures(
            W::update_velocities,
            (world, index, &multibody),
            out,
        ) ==> links_fit(placed, weighed, moving, index, out, multibody.velocities@)
    &&& forall|
        world: W,
        multibody: Multibody<W::Real>,
        target: W::Momentum,
        out: (W, Option<Vec<W::Real>>),
    |
        valid(world) && links_fit(
            placed,
            weighed,
            moving,
            index,
            world,
            multibody.velocities@,
        ) && #[trigger] call_ensures(
            W::reconcile_base_linear_momentum,
            (world, index, &multibody, target),
            out,
        ) ==> links_fit(
            placed,
            weighed,
            moving,
            index,
            out.0,
            corrected(multibody, out.1).velocities@,
        )
    &&& forall|world: W, multibody: Multibody<W::Real>, dt: W::Real, out: W|
        valid(world) && links_fit(
            placed,
            weighed,
            moving,
            index,
            world,
            multibody.velocities@,
        ) && #[trigger] call_ensures(
            W::update_mass_matrix,
            (world, index, &multibody, dt),
            out,
        ) ==> links_fit(placed, weighed, moving, index, out, multibody.velocities@)
    &&& forall|world: W, multibody: Multibody<W::Real>, dt: W::Real, out: (W, Vec<W::Real>)|
        valid(world) && links_fit(
            placed,
            weighed,
            moving,
            index,
            world,
            multibody.velocities@,
        ) && #[trigger] call_ensures(
            W::update_acceleration,
            (world, index, &multibody, dt),
            out,
        ) ==> links_fit(placed, weighed, moving, index, out.0, multibody.velocities@)
}

/// Whether the steps of the multibodies of the roots lead from valid worlds to valid worlds and,
/// unless they are steps of one multibody itself, leave its links as they fit.
pub open spec fn links_apart<W: MultibodyDynamics>(
    valid: spec_fn(W) -> bool,
    placed: spec_fn(W, MultibodyIndex) -> bool,
    weighed: spec_fn(W, MultibodyIndex) -> bool,
    moving: spec_fn(W, MultibodyIndex, Seq<W::Real>) -> bool,
    roots: Seq<MultibodyLinkId>,
    other: MultibodyIndex,
) -> bool {
    forall|k: int, before: W, after: W|
        0 <= k < roots.len() && valid(before) && #[trigger] steps_to(
            roots[k].multibody,
            before,
            after,
        ) ==> {
            &&& valid(after)
            &&& roots[k].multibody != other ==> forall|velocities: Seq<W::Real>|
                links_fit(placed, weighed, moving, other, before, velocities)
                    ==> #[trigger] links_fit(placed, weighed, moving, other, after, velocities)
        }
}

/// After a substep, be it the last or not, the links of each multibody are where its coordinates
/// put them, have their mass properties there, and move with its final generalized velocities.
pub proof fn law_links_fit<W: MultibodyDynamics>(
    valid: spec_fn(W) -> bool,
    posed: spec_fn(W, MultibodyIndex) -> bool,
    placed: spec_fn(W, MultibodyIndex) -> bool,
    weighed: spec_fn(W, MultibodyIndex) -> bool,
    moving: spec_fn(W, MultibodyIndex, Seq<W::Real>) -> bool,
    roots: Seq<MultibodyLinkId>,
    dt: W::Real,
    is_last_substep: bool,
    pre: SolverState<W>,
    post: SolverState<W>,
    k: int,
)
    requires
        0 <= k < roots.len(),
        valid(pre.world),
        refreshes_links(valid, posed, placed, weighed, moving, roots[k].multibody),
        links_apart(valid, placed, weighed, moving, roots, roots[k].multibody),
        roots_keep_dimensions(roots, pre.multibodies, pre.world),
        distinct_roots(roots),
        disjoint_rows(pre.multibodies, roots),
        roots_fit(roots, pre),
        roots_integrated(roots, dt, is_last_substep, pre, post),
    ensures
        links_fit(
            placed,
            weighed,
            moving,
            roots[k].multibody,
            post.world,
            multibody_at(post.multibodies, roots[k].multibody).velocities@,
        ),
    decreases roots.len(),
{
    let n = roots.len() - 1;
    let front = roots.drop_last();
    let link = roots[k];
    let index = link.multibody;
    let mid = lemma_split_integrated(roots, dt, is_last_substep, pre, post);
    assert(root_fits(roots[n], pre) && root_fits(link, pre));
    assert forall|j: int, before: W, after: W|
        0 <= j < front.len() && valid(before) && #[trigger] steps_to(
            front[j].multibody,
            before,
            after,
        ) implies {
        &&& valid(after)
        &&& front[j].multibody != index ==> forall|velocities: Seq<W::Real>|
            links_fit(placed, weighed, moving, index, before, velocities)
                ==> #[trigger] links_fit(placed, weighed, moving, index, after, velocities)
    } by {
        assert(steps_to(roots[j].multibody, before, after));
    }
    assert(steps_keep(front, valid));
    lemma_roots_keep(front, dt, is_last_substep, pre, mid, valid);
    let trace = lemma_root_trace(roots.last(), dt, is_last_substep, mid, post);
    lemma_trace_steps(trace, roots.last(), dt, is_last_substep, mid, post);
    assert(steps_to(roots[n].multibody, mid.world, trace.integrated));
    assert(steps_to(roots[n].multibody, trace.integrated, trace.posed));
    assert(steps_to(roots[n].multibody, trace.posed, trace.written));
    assert(steps_to(roots[n].multibody, trace.written, trace.moved));
    assert(steps_to(roots[n].multibody, trace.moved, trace.out.0));
    assert(steps_to(roots[n].multibody, trace.out.0, trace.weighed));
    if !is_last_substep {
        assert(steps_to(roots[n].multibody, trace.weighed, post.world));
    }
    if k < n {
        assert(front[k] == link);
        law_links_fit(
            valid,
            posed,
            placed,
            weighed,
            moving,
            front,
            dt,
            is_last_substep,
            pre,
            mid,
            k,
        );
        assert(index != roots[n].multibody);
        assert(post.multibodies[index.0 as int] == mid.multibodies[index.0 as int]);
        let velocities = multibody_at(mid.multibodies, index).velocities@;
        assert(links_fit(placed, weighed, moving, index, trace.integrated, velocities));
        assert(links_fit(placed, weighed, moving, index, trace.posed, velocities));
        assert(links_fit(placed, weighed, moving, index, trace.written, velocities));
        assert(links_fit(placed, weighed, moving, index, trace.moved, velocities));
        assert(links_fit(placed, weighed, moving, index, trace.out.0, velocities));
        assert(links_fit(placed, weighed, moving, index, trace.weighed, velocities));
    } else {
        let reconciled = corrected(trace.entering, trace.out.1);
        assert(multibody_at(post.multibodies, index) == trace.last);
        assert(links_fit(
            placed,
            weighed,
            moving,
            index,
            trace.weighed,
            reconciled.velocities@,
        ));
    }
}

/// One call into the dynamics, with what went into it and, where it returned more than a world,
/// what came back.
pub enum Step<R, P> {
    Velocities(MultibodyIndex, Multibody<R>),
    MassMatrix(MultibodyIndex, Multibody<R>, R),
    Acceleration(MultibodyIndex, Multibody<R>, R, Vec<R>),
    Integrate(MultibodyIndex, Multibody<R>, R),
    Kinematics(MultibodyIndex, Multibody<R>, bool),
    RigidBodies(MultibodyIndex, Multibody<R>, bool, bool, bool),
    Reconcile(MultibodyIndex, Multibody<R>, P, Option<Vec<R>>),
}

/// Whether `log` tells the history of a world: each step adds itself at the end.
pub open spec fn records_steps<W: MultibodyDynamics>(
    log: spec_fn(W) -> Seq<Step<W::Real, W::Momentum>>,
) -> bool {
    &&& forall|world: W, index: MultibodyIndex, multibody: Multibody<W::Real>, out: W| #[trigger]
        call_ensures(W::update_velocities, (world, index, &multibody), out) ==> log(out) == log(
            world,
        ).push(Step::Velocities(index, multibody))
    &&& forall|
        world: W,
        index: MultibodyIndex,
        multibody: Multibody<W::Real>,
        dt: W::Real,
        out: W,
    | #[trigger]
        call_ensures(W::update_mass_matrix, (world, index, &multibody, dt), out) ==> log(out)
            == log(world).push(Step::MassMatrix(index, multibody, dt))
    &&& forall|
        world: W,
        index: MultibodyIndex,
        multibody: Multibody<W::Real>,
        dt: W::Real,
        out: (W, Vec<W::Real>),
    | #[trigger]
        call_ensures(W::update_acceleration, (world, index, &multibody, dt), out) ==> log(out.0)
            == log(world).push(Step::Acceleration(index, multibody, dt, out.1))
    &&& forall|
        world: W,
        index: MultibodyIndex,
        multibody: Multibody<W::Real>,
        dt: W::Real,
        out: W,
    | #[trigger]
        call_ensures(W::integrate, (world, index, &multibody, dt), out) ==> log(out) == log(
            world,
        ).push(Step::Integrate(index, multibody, dt))
    &&& forall|
        world: W,
        index: MultibodyIndex,
        multibody: Multibody<W::Real>,
        read_root_pose: bool,
        out: W,
    | #[trigger]
        call_ensures(W::forward_kinematics, (world, index, &multibody, read_root_pose), out)
            ==> log(out) == log(world).push(Step::Kinematics(index, multibody, read_root_pose))
    &&& forall|
        world: W,
        index: MultibodyIndex,
        multibody: Multibody<W::Real>,
        mass_properties: bool,
        next_positions_only: bool,
        change_tracking: bool,
        out: W,
    | #[trigger]
        call_ensures(
            W::update_rigid_bodies_internal,
            (world, index, &multibody, mass_properties, next_positions_only, change_tracking),
            out,
        ) ==> log(out) == log(world).push(
            Step::RigidBodies(
                index,
                multibody,
                mass_properties,
                next_positions_only,
                change_tracking,
            ),
        )
    &&& forall|
        world: W,
        index: MultibodyIndex,
        multibody: Multibody<W::Real>,
        target: W::Momentum,
        out: (W, Option<Vec<W::Real>>),
    | #[trigger]
        call_ensures(
            W::reconcile_base_linear_momentum,
            (world, index, &multibody, target),
            out,
        ) ==> log(out.0) == log(world).push(Step::Reconcile(index, multibody, target, out.1))
}

/// The state of the solver is what its buffers, the world and the multibodies hold.
pub proof fn law_state_holds_the_buffers<W: MultibodyDynamics>(
    solver: VelocitySolver<W>,
    world: W,
    multibodies: MultibodyJointSet<W::Real>,
)
    ensures
        solver.state(world, multibodies).world == world,
        solver.state(world, multibodies).multibodies == multibodies.multibodies@,
        solver.state(world, multibodies).vels == solver.generic_solver_vels@,
        solver.state(world, multibodies).increment == solver.generic_solver_vels_increment@,
{
}

/// Preparing some roots and then others is preparing all of them. Preparing none does nothing.
pub proof fn law_preparations_join<W: MultibodyDynamics>(
    front: Seq<MultibodyLinkId>,
    back: Seq<MultibodyLinkId>,
    dt: W::Real,
    pre: SolverState<W>,
    mid: SolverState<W>,
    post: SolverState<W>,
)
    requires
        roots_prepared(front, dt, pre, mid),
        roots_prepared(back, dt, mid, post),
    ensures
        roots_prepared(front + back, dt, pre, post),
        back.len() == 0 ==> post == mid,
    decreases back.len(),
{
    let all = front + back;
    if back.len() == 0 {
        assert(all == front);
    } else {
        let before = choose|before: SolverState<W>|
            {
                &&& roots_prepared(back.drop_last(), dt, mid, before)
                &&& #[trigger] root_prepared(back.last(), dt, before, post)
            };
        law_preparations_join(front, back.drop_last(), dt, pre, mid, before);
        assert(all.drop_last() == front + back.drop_last());
        assert(root_prepared(all.last(), dt, before, post));
    }
}

/// Preparing roots can be cut in two at any place. Returns the state at the cut.
pub proof fn law_preparations_part<W: MultibodyDynamics>(
    front: Seq<MultibodyLinkId>,
    back: Seq<MultibodyLinkId>,
    dt: W::Real,
    pre: SolverState<W>,
    post: SolverState<W>,
) -> (mid: SolverState<W>)
    requires
        roots_prepared(front + back, dt, pre, post),
    ensures
        roots_prepared(front, dt, pre, mid),
        roots_prepared(back, dt, mid, post),
        front.len() == 0 ==> mid == pre,
        back.len() == 0 ==> mid == post,
    decreases back.len(),
{
    let all = front + back;
    if back.len() == 0 {
        assert(all == front);
        post
    } else {
        let before = choose|before: SolverState<W>|
            {
                &&& roots_prepared(all.drop_last(), dt, pre, before)
                &&& #[trigger] root_prepared(all.last(), dt, before, post)
            };
        assert(all.drop_last() == front + back.drop_last());
        let mid = law_preparations_part(front, back.drop_last(), dt, pre, before);
        assert(root_prepared(back.last(), dt, before, post));
        mid
    }
}

/// Integrating some roots and then others is integrating all of them. Integrating none does
/// nothing.
pub proof fn law_substeps_join<W: MultibodyDynamics>(
    front: Seq<MultibodyLinkId>,
    back: Seq<MultibodyLinkId>,
    dt: W::Real,
    is_last_substep: bool,
    pre: SolverState<W>,
    mid: SolverState<W>,
    post: SolverState<W>,
)
    requires
        roots_integrated(front, dt, is_last_substep, pre, mid),
        roots_integrated(back, dt, is_last_substep, mid, post),
    ensures
        roots_integrated(front + back, dt, is_last_substep, pre, post),
        back.len() == 0 ==> post == mid,
    decreases back.len(),
{
    let all = front + back;
    if back.len() == 0 {
        assert(all == front);
    } else {
        let before = choose|before: SolverState<W>|
            {
                &&& roots_integrated(back.drop_last(), dt, is_last_substep, mid, before)
                &&& #[trigger] root_integrated(back.last(), dt, is_last_substep, before, post)
            };
        law_substeps_join(front, back.drop_last(), dt, is_last_substep, pre, mid, before);
        assert(all.drop_last() == front + back.drop_last());
        assert(root_integrated(all.last(), dt, is_last_substep, before, post));
    }
}

/// Integrating roots can be cut in two at any place. Returns the state at the cut.
pub proof fn law_substeps_part<W: MultibodyDynamics>(
    front: Seq<MultibodyLinkId>,
    back: Seq<MultibodyLinkId>,
    dt: W::Real,
    is_last_substep: bool,
    pre: SolverState<W>,
    post: SolverState<W>,
) -> (mid: SolverState<W>)
    requires
        roots_integrated(front + back, dt, is_last_substep, pre, post),
    ensures
        roots_integrated(front, dt, is_last_substep, pre, mid),
        roots_integrated(back, dt, is_last_substep, mid, post),
        front.len() == 0 ==> mid == pre,
        back.len() == 0 ==> mid == post,
    decreases back.len(),
{
    let all = front + back;
    if back.len() == 0 {
        assert(all == front);
        post
    } else {
        let before = choose|before: SolverState<W>|
            {
                &&& roots_integrated(all.drop_last(), dt, is_last_substep, pre, before)
                &&& #[trigger] root_integrated(all.last(), dt, is_last_substep, before, post)
            };
        assert(all.drop_last() == front + back.drop_last());
        let mid = law_substeps_part(front, back.drop_last(), dt, is_last_substep, pre, before);
        assert(root_integrated(back.last(), dt, is_last_substep, before, post));
        mid
    }
}

/// The history of a preparation: for its one root, the link velocities, the mass matrix and the
/// accelerations are recomputed, once each and in this order. Returns the accelerations, which the
/// multibody has from then on. Its rows of the increment are `dt` times these, its rows of the
/// velocities are its own velocities, and everything else is as it was.
pub proof fn law_preparation_history<W: MultibodyDynamics>(
    log: spec_fn(W) -> Seq<Step<W::Real, W::Momentum>>,
    link: MultibodyLinkId,
    dt: W::Real,
    pre: SolverState<W>,
    post: SolverState<W>,
) -> (accelerations: Vec<W::Real>)
    requires
        records_steps(log),
        roots_prepared(seq![link], dt, pre, post),
        link.multibody.0 < pre.multibodies.len(),
        pre.multibodies[link.multibody.0 as int] is Some,
        ({
            let multibody = pre.multibodies[link.multibody.0 as int]->0;
            &&& multibody.solver_id + multibody.velocities@.len() <= pre.vels.len()
            &&& multibody.solver_id + multibody.velocities@.len() <= pre.increment.len()
        }),
    ensures
        ({
            let index = link.multibody;
            let multibody = pre.multibodies[index.0 as int]->0;
            let base = multibody.solver_id as int;
            &&& log(post.world) == log(pre.world) + seq![
                Step::Velocities(index, multibody),
                Step::MassMatrix(index, multibody, dt),
                Step::Acceleration(index, multibody, dt, accelerations),
            ]
            &&& post.multibodies.len() == pre.multibodies.len()
            &&& forall|i: int|
                0 <= i < pre.multibodies.len() && i != index.0 ==> #[trigger] post.multibodies[i]
                    == pre.multibodies[i]
            &&& post.multibodies[index.0 as int] == Some(
                Multibody {
                    root_is_dynamic: multibody.root_is_dynamic,
                    solver_id: multibody.solver_id,
                    velocities: multibody.velocities,
                    accelerations,
                },
            )
            &&& post.increment.len() == pre.increment.len()
            &&& forall|d: int|
                0 <= d < accelerations@.len() ==> #[trigger] call_ensures(
                    W::product,
                    (dt, accelerations@[d]),
                    post.increment[base + d],
                )
            &&& forall|row: int|
                0 <= row < pre.increment.len() && !(base <= row < base + accelerations@.len())
                    ==> #[trigger] post.increment[row] == pre.increment[row]
            &&& post.vels.len() == pre.vels.len()
            &&& post.vels.subrange(base, base + multibody.velocities@.len())
                == multibody.velocities@
            &&& forall|row: int|
                0 <= row < pre.vels.len() && !(base <= row < base + multibody.velocities@.len())
                    ==> #[trigger] post.vels[row] == pre.vels[row]
        }),
{
    let index = link.multibody;
    let multibody = multibody_at(pre.multibodies, index);
    let base = multibody.solver_id as int;
    assert(seq![link].drop_last() == Seq::<MultibodyLinkId>::empty());
    let mid = choose|mid: SolverState<W>|
        {
            &&& roots_prepared(seq![link].drop_last(), dt, pre, mid)
            &&& #[trigger] root_prepared(seq![link].last(), dt, mid, post)
        };
    assert(mid == pre);
    let (moved, weighed, out) = choose|moved: W, weighed: W, out: (W, Vec<W::Real>)|
        {
            &&& #[trigger] call_ensures(
                W::update_velocities,
                (pre.world, index, &multibody),
                moved,
            )
            &&& #[trigger] call_ensures(
                W::update_mass_matrix,
                (moved, index, &multibody, dt),
                weighed,
            )
            &&& #[trigger] call_ensures(
                W::update_acceleration,
                (weighed, index, &multibody, dt),
                out,
            )
            &&& post.world == out.0
            &&& post.multibodies == pre.multibodies.update(
                index.0 as int,
                Some(Multibody { accelerations: out.1, ..multibody }),
            )
            &&& scaled_rows::<W>(pre.increment, base, dt, out.1@, post.increment)
            &&& post.vels == with_rows(pre.vels, base, multibody.velocities@)
        };
    assert(log(post.world) =~= log(pre.world) + seq![
        Step::Velocities(index, multibody),
        Step::MassMatrix(index, multibody, dt),
        Step::Acceleration(index, multibody, dt, out.1),
    ]);
    assert(post.vels.subrange(base, base + multibody.velocities@.len())
        =~= multibody.velocities@);
    out.1
}

/// What comes up while one multibody is integrated over a substep, besides worlds.
pub struct SubstepReport<W: MultibodyDynamics> {
    /// The multibody as it is handed to the steps before reconciliation.
    pub entering: Multibody<W::Real>,
    /// The increment whose momentum is taken away.
    pub increment: Vec<W::Real>,
    /// The momentum at the velocities that it enters with.
    pub momentum: W::Momentum,
    /// The momentum of the increment.
    pub mapped: W::Momentum,
    /// The external force.
    pub force: W::Force,
    /// The first momentum less the second.
    pub remaining: W::Momentum,
    /// The impulse of the external force.
    pub credit: W::Momentum,
    /// The momentum that reconciliation aims at.
    pub target: W::Momentum,
    /// What reconciliation returned.
    pub correction: Option<Vec<W::Real>>,
    /// The multibody as it is handed to the steps after reconciliation.
    pub reconciled: Multibody<W::Real>,
    /// The accelerations that were recomputed, unless this was the last substep.
    pub accelerations: Vec<W::Real>,
}

/// The history of a substep: its one root is integrated along its rows of the solver velocities,
/// posed, written to the rigid bodies, set moving and reconciled with what the ledger says it owes,
/// and its mass matrix is recomputed, once each and in this order. Unless this is the last
/// substep, its accelerations follow. Nothing else happens to the world, however many degrees of
/// freedom there are.
///
/// The multibody and its rows then hold the corrected velocities, if there are any, and otherwise
/// those it entered with. Its rows of the increment are `dt` times the new accelerations, if there
/// are any. Everything else is as it was.
pub proof fn law_substep_history<W: MultibodyDynamics>(
    log: spec_fn(W) -> Seq<Step<W::Real, W::Momentum>>,
    link: MultibodyLinkId,
    dt: W::Real,
    is_last_substep: bool,
    pre: SolverState<W>,
    post: SolverState<W>,
) -> (report: SubstepReport<W>)
    requires
        records_steps(log),
        roots_integrated(seq![link], dt, is_last_substep, pre, post),
        link.multibody.0 < pre.multibodies.len(),
        pre.multibodies[link.multibody.0 as int] is Some,
        ({
            let multibody = pre.multibodies[link.multibody.0 as int]->0;
            &&& multibody.solver_id + multibody.velocities@.len() <= pre.vels.len()
            &&& multibody.solver_id + multibody.velocities@.len() <= pre.increment.len()
        }),
    ensures
        ({
            let index = link.multibody;
            let multibody = pre.multibodies[index.0 as int]->0;
            let base = multibody.solver_id as int;
            let end = base + multibody.velocities@.len();
            &&& report.entering.root_is_dynamic == multibody.root_is_dynamic
            &&& report.entering.solver_id == multibody.solver_id
            &&& report.entering.accelerations == multibody.accelerations
            &&& report.entering.velocities@ == pre.vels.subrange(base, end)
            &&& report.increment@ == pre.increment.subrange(base, end)
            &&& call_ensures(
                W::linear_momentum,
                (&pre.world, index, &report.entering),
                report.momentum,
            )
            &&& call_ensures(
                W::map_momentum,
                (&pre.world, index, &report.entering, &report.increment),
                report.mapped,
            )
            &&& call_ensures(
                W::total_external_force,
                (&pre.world, index, &report.entering),
                report.force,
            )
            &&& call_ensures(
                W::momentum_difference,
                (report.momentum, report.mapped),
                report.remaining,
            )
            &&& call_ensures(W::impulse_of, (report.force, dt), report.credit)
            &&& call_ensures(W::momentum_sum, (report.remaining, report.credit), report.target)
            &&& report.reconciled == (Multibody {
                root_is_dynamic: multibody.root_is_dynamic,
                solver_id: multibody.solver_id,
                velocities: match report.correction {
                    Some(velocities) => velocities,
                    None => report.entering.velocities,
                },
                accelerations: multibody.accelerations,
            })
            &&& log(post.world) == log(pre.world) + seq![
                Step::Integrate(index, report.entering, dt),
                Step::Kinematics(index, report.entering, false),
                Step::RigidBodies(index, report.entering, true, true, false),
                Step::Velocities(index, report.entering),
                Step::Reconcile(index, report.entering, report.target, report.correction),
                Step::MassMatrix(index, report.reconciled, dt),
            ] + if is_last_substep {
                Seq::empty()
            } else {
                seq![Step::Acceleration(index, report.reconciled, dt, report.accelerations)]
            }
            &&& post.multibodies.len() == pre.multibodies.len()
            &&& forall|i: int|
                0 <= i < pre.multibodies.len() && i != index.0 ==> #[trigger] post.multibodies[i]
                    == pre.multibodies[i]
            &&& post.multibodies[index.0 as int] == Some(
                Multibody {
                    root_is_dynamic: multibody.root_is_dynamic,
                    solver_id: multibody.solver_id,
                    velocities: report.reconciled.velocities,
                    accelerations: if is_last_substep {
                        multibody.accelerations
                    } else {
                        report.accelerations
                    },
                },
            )
            &&& post.vels.len() == pre.vels.len()
            &&& report.correction is None ==> post.vels == pre.vels
            &&& report.correction matches Some(velocities) ==> {
                &&& forall|row: int|
                    0 <= row < pre.vels.len() && base <= row < base + velocities@.len()
                        ==> #[trigger] post.vels[row] == velocities@[row - base]
                &&& forall|row: int|
                    0 <= row < pre.vels.len() && !(base <= row < base + velocities@.len())
                        ==> #[trigger] post.vels[row] == pre.vels[row]
            }
            &&& is_last_substep ==> post.increment == pre.increment
            &&& !is_last_substep ==> {
                &&& post.increment.len() == pre.increment.len()
                &&& forall|d: int|
                    0 <= d < report.accelerations@.len() ==> #[trigger] call_ensures(
                        W::product,
                        (dt, report.accelerations@[d]),
                        post.increment[base + d],
                    )
                &&& forall|row: int|
                    0 <= row < pre.increment.len() && !(base <= row < base
                        + report.accelerations@.len()) ==> #[trigger] post.increment[row]
                        == pre.increment[row]
            }
        }),
{
    let index = link.multibody;
    assert(seq![link].drop_last() == Seq::<MultibodyLinkId>::empty());
    let mid = choose|mid: SolverState<W>|
        {
            &&& roots_integrated(seq![link].drop_last(), dt, is_last_substep, pre, mid)
            &&& #[trigger] root_integrated(seq![link].last(), dt, is_last_substep, mid, post)
        };
    assert(mid == pre);
    let trace = lemma_root_trace(link, dt, is_last_substep, pre, post);
    let (momentum, mapped, force) = choose|
        momentum: W::Momentum,
        mapped: W::Momentum,
        force: W::Force,
    |
        {
            &&& #[trigger] call_ensures(
                W::linear_momentum,
                (&pre.world, index, &trace.entering),
                momentum,
            )
            &&& #[trigger] call_ensures(
                W::map_momentum,
                (&pre.world, index, &trace.entering, &trace.increment),
                mapped,
            )
            &&& #[trigger] call_ensures(
                W::total_external_force,
                (&pre.world, index, &trace.entering),
                force,
            )
            &&& balances::<W>(momentum, mapped, force, dt, trace.target)
        };
    let (remaining, credit) = choose|remaining: W::Momentum, impulse: W::Momentum|
        {
            &&& #[trigger] call_ensures(W::momentum_difference, (momentum, mapped), remaining)
            &&& #[trigger] call_ensures(W::impulse_of, (force, dt), impulse)
            &&& call_ensures(W::momentum_sum, (remaining, impulse), trace.target)
        };
    let reconciled = corrected(trace.entering, trace.out.1);
    let report = SubstepReport {
        entering: trace.entering,
        increment: trace.increment,
        momentum,
        mapped,
        force,
        remaining,
        credit,
        target: trace.target,
        correction: trace.out.1,
        reconciled,
        accelerations: trace.refreshed.1,
    };
    let events = seq![
        Step::Integrate(index, report.entering, dt),
        Step::Kinematics(index, report.entering, false),
        Step::RigidBodies(index, report.entering, true, true, false),
        Step::Velocities(index, report.entering),
        Step::Reconcile(index, report.entering, report.target, report.correction),
        Step::MassMatrix(index, report.reconciled, dt),
    ];
    assert(log(trace.weighed) =~= log(pre.world) + events);
    if is_last_substep {
        assert(log(post.world) =~= log(pre.world) + events + Seq::empty());
    } else {
        assert(log(post.world) =~= log(pre.world) + events + seq![
            Step::Acceleration(index, report.reconciled, dt, report.accelerations),
        ]);
    }
    report
}

/// Whether integrating a multibody makes it `advanced`, from the coordinates that it starts from
/// and with the velocities it has, and its other steps of a substep leave that as it is.
pub open spec fn integrating_advances<W: MultibodyDynamics, C>(
    valid: spec_fn(W) -> bool,
    coords: spec_fn(W, MultibodyIndex) -> C,
    advanced: spec_fn(W, MultibodyIndex, C, Seq<W::Real>, W::Real) -> bool,
    index: MultibodyIndex,
    dt: W::Real,
) -> bool {
    &&& forall|world: W, multibody: Multibody<W::Real>, out: W|
        valid(world) && #[trigger] call_ensures(
            W::integrate,
            (world, index, &multibody, dt),
            out,
        ) ==> advanced(out, index, coords(world, index), multibody.velocities@, dt)
    &&& forall|world: W, multibody: Multibody<W::Real>, out: W, from: C, vels: Seq<W::Real>|
        valid(world) && #[trigger] advanced(world, index, from, vels, dt)
            && #[trigger] call_ensures(
            W::forward_kinematics,
            (world, index, &multibody, false),
            out,
        ) ==> advanced(out, index, from, vels, dt)
    &&& forall|world: W, multibody: Multibody<W::Real>, out: W, from: C, vels: Seq<W::Real>|
        valid(world) && #[trigger] advanced(world, index, from, vels, dt)
            && #[trigger] call_ensures(
            W::update_rigid_bodies_internal,
            (world, index, &multibody, true, true, false),
            out,
        ) ==> advanced(out, index, from, vels, dt)
    &&& forall|world: W, multibody: Multibody<W::Real>, out: W, from: C, vels: Seq<W::Real>|
        valid(world) && #[trigger] advanced(world, index, from, vels, dt)
            && #[trigger] call_ensures(
            W::update_velocities,
            (world, index, &multibody),
            out,
        ) ==> advanced(out, index, from, vels, dt)
    &&& forall|
        world: W,
        multibody: Multibody<W::Real>,
        target: W::Momentum,
        out: (W, Option<Vec<W::Real>>),
        from: C,
        vels: Seq<W::Real>,
    |
        valid(world) && #[trigger] advanced(world, index, from, vels, dt)
            && #[trigger] call_ensures(
            W::reconcile_base_linear_momentum,
            (world, index, &multibody, target),
            out,
        ) ==> advanced(out.0, index, from, vels, dt)
    &&& forall|world: W, multibody: Multibody<W::Real>, out: W, from: C, vels: Seq<W::Real>|
        valid(world) && #[trigger] advanced(world, index, from, vels, dt)
            && #[trigger] call_ensures(
            W::update_mass_matrix,
            (world, index, &multibody, dt),
            out,
        ) ==> advanced(out, index, from, vels, dt)
    &&& forall|
        world: W,
        multibody: Multibody<W::Real>,
        out: (W, Vec<W::Real>),
        from: C,
        vels: Seq<W::Real>,
    |
        valid(world) && #[trigger] advanced(world, index, from, vels, dt)
            && #[trigger] call_ensures(
            W::update_acceleration,
            (world, index, &multibody, dt),
            out,
        ) ==> advanced(out.0, index, from, vels, dt)
}

/// Whether the steps of the multibodies of the roots lead from valid worlds to valid worlds and,
/// unless they are steps of one multibody itself, leave its coordinates alone, and leave it
/// advanced.
pub open spec fn coordinates_apart<W: MultibodyDynamics, C>(
    valid: spec_fn(W) -> bool,
    coords: spec_fn(W, MultibodyIndex) -> C,
    advanced: spec_fn(W, MultibodyIndex, C, Seq<W::Real>, W::Real) -> bool,
    roots: Seq<MultibodyLinkId>,
    other: MultibodyIndex,
    dt: W::Real,
) -> bool {
    forall|k: int, before: W, after: W|
        0 <= k < roots.len() && valid(before) && #[trigger] steps_to(
            roots[k].multibody,
            before,
            after,
        ) ==> {
            &&& valid(after)
            &&& roots[k].multibody != other ==> {
                &&& coords(after, other) == coords(before, other)
                &&& forall|from: C, vels: Seq<W::Real>|
                    advanced(before, other, from, vels, dt) ==> #[trigger] advanced(
                        after,
                        other,
                        from,
                        vels,
                        dt,
                    )
            }
        }
}

/// A substep moves every multibody: from the coordinates that it had before, along the velocities
/// that the solver holds for it, over the whole time step, whatever its number of degrees of
/// freedom.
pub proof fn law_substep_advances<W: MultibodyDynamics, C>(
    valid: spec_fn(W) -> bool,
    coords: spec_fn(W, MultibodyIndex) -> C,
    advanced: spec_fn(W, MultibodyIndex, C, Seq<W::Real>, W::Real) -> bool,
    roots: Seq<MultibodyLinkId>,
    dt: W::Real,
    is_last_substep: bool,
    pre: SolverState<W>,
    post: SolverState<W>,
    k: int,
)
    requires
        0 <= k < roots.len(),
        valid(pre.world),
        integrating_advances(valid, coords, advanced, roots[k].multibody, dt),
        coordinates_apart(valid, coords, advanced, roots, roots[k].multibody, dt),
        roots_keep_dimensions(roots, pre.multibodies, pre.world),
        distinct_roots(roots),
        disjoint_rows(pre.multibodies, roots),
        roots_fit(roots, pre),
        roots_integrated(roots, dt, is_last_substep, pre, post),
    ensures
        ({
            let multibody = pre.multibodies[roots[k].multibody.0 as int]->0;
            advanced(
                post.world,
                roots[k].multibody,
                coords(pre.world, roots[k].multibody),
                pre.vels.subrange(
                    multibody.solver_id as int,
                    multibody.solver_id + multibody.velocities@.len(),
                ),
                dt,
            )
        }),
    decreases roots.len(),
{
    let n = roots.len() - 1;
    let front = roots.drop_last();
    let link = roots[k];
    let index = link.multibody;
    let initial = pre.multibodies[index.0 as int]->0;
    let vels = pre.vels.subrange(
        initial.solver_id as int,
        initial.solver_id + initial.velocities@.len(),
    );
    let from = coords(pre.world, index);
    let mid = lemma_split_integrated(roots, dt, is_last_substep, pre, post);
    assert(root_fits(roots[n], pre) && root_fits(link, pre));
    assert forall|j: int, before: W, after: W|
        0 <= j < front.len() && valid(before) && #[trigger] steps_to(
            front[j].multibody,
            before,
            after,
        ) implies {
        &&& valid(after)
        &&& front[j].multibody != index ==> {
            &&& coords(after, index) == coords(before, index)
            &&& forall|c: C, v: Seq<W::Real>|
                advanced(before, index, c, v, dt) ==> #[trigger] advanced(after, index, c, v, dt)
        }
    } by {
        assert(steps_to(roots[j].multibody, before, after));
    }
    assert(steps_keep(front, valid));
    lemma_roots_keep(front, dt, is_last_substep, pre, mid, valid);
    let trace = lemma_root_trace(roots.last(), dt, is_last_substep, mid, post);
    lemma_trace_steps(trace, roots.last(), dt, is_last_substep, mid, post);
    assert(steps_to(roots[n].multibody, mid.world, trace.integrated));
    assert(steps_to(roots[n].multibody, trace.integrated, trace.posed));
    assert(steps_to(roots[n].multibody, trace.posed, trace.written));
    assert(steps_to(roots[n].multibody, trace.written, trace.moved));
    assert(steps_to(roots[n].multibody, trace.moved, trace.out.0));
    assert(steps_to(roots[n].multibody, trace.out.0, trace.weighed));
    if !is_last_substep {
        assert(steps_to(roots[n].multibody, trace.weighed, post.world));
    }
    if k < n {
        assert(front[k] == link);
        law_substep_advances(
            valid,
            coords,
            advanced,
            front,
            dt,
            is_last_substep,
            pre,
            mid,
            k,
        );
        assert(index != roots[n].multibody);
    } else {
        assert forall|j: int| 0 <= j < front.len() implies (#[trigger] front[j]).multibody
            != index by {
            assert(front[j] == roots[j]);
            assert(roots[j].multibody != roots[n].multibody);
        }
        let inv = |world: W| valid(world) && coords(world, index) == from;
        assert forall|j: int, before: W, after: W|
            0 <= j < front.len() && inv(before) && #[trigger] steps_to(
                front[j].multibody,
                before,
                after,
            ) implies inv(after) by {
            assert(front[j].multibody != index);
        }
        lemma_roots_keep(front, dt, is_last_substep, pre, mid, inv);
        lemma_entry_kept(roots, pre, mid, trace.entering, trace.increment);
        assert(trace.entering.velocities@ == vels);
    }
    assert(advanced(trace.integrated, index, from, vels, dt));
    assert(advanced(trace.posed, index, from, vels, dt));
    assert(advanced(trace.written, index, from, vels, dt));
    assert(advanced(trace.moved, index, from, vels, dt));
    assert(advanced(trace.out.0, index, from, vels, dt));
    assert(advanced(trace.weighed, index, from, vels, dt));
}

/// The roots of an island are complete. Returns the places of the island that they come from: these
/// go up, each root is the link of the body at its place, and every body whose link has position
/// 0, or position 1 behind a root that does not move, is at one of the places. No other body is.
pub proof fn law_roots_of_island<R>(
    multibodies: MultibodyJointSet<R>,
    island: Seq<RigidBodyHandle>,
) -> (places: Seq<int>)
    ensures
        places.len() == solver_roots(multibodies, island).len(),
        forall|j: int, k: int| 0 <= j < k < places.len() ==> places[j] < places[k],
        forall|k: int|
            0 <= k < places.len() ==> {
                let body = island[#[trigger] places[k]].0 as int;
                let link = solver_roots(multibodies, island)[k];
                &&& 0 <= places[k] < island.len()
                &&& body < multibodies.rigid_body_links@.len()
                &&& multibodies.rigid_body_links@[body] == Some(link)
                &&& link.id == 0 || link.id == 1
                    && !(multibodies.multibodies@[link.multibody.0 as int]->0).root_is_dynamic
            },
        forall|i: int|
            #![trigger island[i]]
            0 <= i < island.len() && island[i].0 < multibodies.rigid_body_links@.len() && (
            multibodies.rigid_body_links@[island[i].0 as int] matches Some(link) && (link.id == 0
                || link.id == 1
                && !(multibodies.multibodies@[link.multibody.0 as int]->0).root_is_dynamic))
                ==> places.contains(i),
    decreases island.len(),
{
    if island.len() == 0 {
        Seq::empty()
    } else {
        let front = island.drop_last();
        let n = island.len() - 1;
        let before = law_roots_of_island(multibodies, front);
        let places = match solver_root(multibodies, island.last()) {
            Some(link) => before.push(n),
            None => before,
        };
        assert forall|k: int| 0 <= k < places.len() implies {
            let body = island[#[trigger] places[k]].0 as int;
            let link = solver_roots(multibodies, island)[k];
            &&& 0 <= places[k] < island.len()
            &&& body < multibodies.rigid_body_links@.len()
            &&& multibodies.rigid_body_links@[body] == Some(link)
            &&& link.id == 0 || link.id == 1
                && !(multibodies.multibodies@[link.multibody.0 as int]->0).root_is_dynamic
        } by {
            if k < before.len() {
                assert(before[k] == places[k]);
                assert(front[before[k]] == island[places[k]]);
            }
        }
        assert forall|i: int|
            #![trigger island[i]]
            0 <= i < island.len() && island[i].0 < multibodies.rigid_body_links@.len() && (
            multibodies.rigid_body_links@[island[i].0 as int] matches Some(link) && (link.id == 0
                || link.id == 1
                && !(multibodies.multibodies@[link.multibody.0 as int]->0).root_is_dynamic))
            implies places.contains(i) by {
            if i < n {
                assert(front[i] == island[i]);
                assert(before.contains(i));
                let k = choose|k: int| 0 <= k < before.len() && before[k] == i;
                assert(places[k] == i);
            } else {
                assert(places[before.len() as int] == i);
            }
        }
        places
    }
}

proof fn lemma_unled_multibody_stays<R>(
    multibodies: Seq<Option<Multibody<R>>>,
    roots: Seq<MultibodyLinkId>,
    i: int,
)
    requires
        roots_resolve(multibodies, roots),
        total_dofs(multibodies, roots) <= u32::MAX,
        0 <= i < multibodies.len(),
        forall|k: int| 0 <= k < roots.len() ==> (#[trigger] roots[k]).multibody.0 != i,
    ensures
        with_solver_ids(multibodies, roots)[i] == multibodies[i],
    decreases roots.len(),
{
    if roots.len() > 0 {
        let front = roots.drop_last();
        assert forall|k: int| 0 <= k < front.len() implies (#[trigger] front[k]).multibody.0
            != i by {
            assert(front[k] == roots[k]);
        }
        lemma_front_resolves(multibodies, roots);
        lemma_unled_multibody_stays(multibodies, front, i);
        assert(roots[roots.len() - 1].multibody.0 != i);
    }
}

proof fn lemma_last_root_decides<R>(
    multibodies: Seq<Option<Multibody<R>>>,
    roots: Seq<MultibodyLinkId>,
    k: int,
)
    requires
        roots_resolve(multibodies, roots),
        total_dofs(multibodies, roots) <= u32::MAX,
        0 <= k < roots.len(),
        forall|j: int|
            k < j < roots.len() ==> (#[trigger] roots[j]).multibody != roots[k].multibody,
    ensures
        (with_solver_ids(multibodies, roots)[roots[k].multibody.0 as int]->0).solver_id
            == total_dofs(multibodies, roots.take(k)),
    decreases roots.len(),
{
    let front = roots.drop_last();
    let n = roots.len() - 1;
    lemma_front_resolves(multibodies, roots);
    assert(contains_multibody(multibodies, roots[k].multibody));
    if k < n {
        assert(front[k] == roots[k]);
        assert(front.take(k) == roots.take(k));
        assert(roots[n].multibody != roots[k].multibody);
        assert forall|j: int| k < j < front.len() implies (#[trigger] front[j]).multibody
            != front[k].multibody by {
            assert(front[j] == roots[j]);
        }
        lemma_last_root_decides(multibodies, front, k);
    } else {
        assert(roots.take(n) == front);
    }
}

proof fn lemma_front_resolves<R>(
    multibodies: Seq<Option<Multibody<R>>>,
    roots: Seq<MultibodyLinkId>,
)
    requires
        roots.len() > 0,
        roots_resolve(multibodies, roots),
        total_dofs(multibodies, roots) <= u32::MAX,
    ensures
        roots_resolve(multibodies, roots.drop_last()),
        total_dofs(multibodies, roots.drop_last()) <= u32::MAX,
        with_solver_ids(multibodies, roots.drop_last()).len() == multibodies.len(),
        roots.last().multibody.0 < multibodies.len(),
{
    let front = roots.drop_last();
    assert forall|k: int| 0 <= k < front.len() implies contains_multibody(
        multibodies,
        (#[trigger] front[k]).multibody,
    ) by {
        assert(front[k] == roots[k]);
    }
    assert(contains_multibody(multibodies, roots[roots.len() - 1].multibody));
    lemma_with_solver_ids(multibodies, front);
}

/// How the multibodies are laid out. Returns where each root starts, and after these where the last
/// one ends: the first starts at zero, and each starts where the one before it ends. A multibody
/// has the start of the last root that leads to it for its solver id. Nothing else about it
/// changes, nor does a multibody that no root leads to.
pub proof fn law_layout_of_roots<R>(
    multibodies: Seq<Option<Multibody<R>>>,
    roots: Seq<MultibodyLinkId>,
) -> (starts: Seq<nat>)
    requires
        forall|k: int|
            0 <= k < roots.len() ==> (#[trigger] roots[k]).multibody.0 < multibodies.len()
                && multibodies[roots[k].multibody.0 as int] is Some,
        total_dofs(multibodies, roots) <= u32::MAX,
    ensures
        starts.len() == roots.len() + 1,
        starts[0] == 0,
        forall|k: int|
            #![trigger roots[k]]
            0 <= k < roots.len() ==> starts[k + 1] == starts[k] + (
            multibodies[roots[k].multibody.0 as int]->0).velocities@.len(),
        total_dofs(multibodies, roots) == starts[roots.len() as int],
        with_solver_ids(multibodies, roots).len() == multibodies.len(),
        forall|i: int|
            #![trigger multibodies[i]]
            0 <= i < multibodies.len() && (forall|k: int|
                0 <= k < roots.len() ==> (#[trigger] roots[k]).multibody.0 != i)
                ==> with_solver_ids(multibodies, roots)[i] == multibodies[i],
        forall|k: int|
            #![trigger roots[k]]
            0 <= k < roots.len() && (forall|j: int|
                k < j < roots.len() ==> (#[trigger] roots[j]).multibody != roots[k].multibody)
                ==> {
                let before = multibodies[roots[k].multibody.0 as int]->0;
                let after = with_solver_ids(multibodies, roots)[roots[k].multibody.0 as int];
                &&& after is Some
                &&& after->0.solver_id == starts[k]
                &&& after->0.root_is_dynamic == before.root_is_dynamic
                &&& after->0.velocities == before.velocities
                &&& after->0.accelerations == before.accelerations
            },
{
    let starts = Seq::new(roots.len() + 1, |k: int| total_dofs(multibodies, roots.take(k)));
    assert forall|k: int| 0 <= k < roots.len() implies contains_multibody(
        multibodies,
        (#[trigger] roots[k]).multibody,
    ) by {}
    lemma_with_solver_ids(multibodies, roots);
    assert forall|i: int|
        #![trigger multibodies[i]]
        0 <= i < multibodies.len() && (forall|k: int|
            0 <= k < roots.len() ==> (#[trigger] roots[k]).multibody.0 != i) implies
        with_solver_ids(multibodies, roots)[i] == multibodies[i] by {
        lemma_unled_multibody_stays(multibodies, roots, i);
    }
    assert(roots.take(0) == Seq::<MultibodyLinkId>::empty());
    assert(roots.take(roots.len() as int) == roots);
    assert forall|k: int|
        #![trigger roots[k]]
        0 <= k < roots.len() implies starts[k + 1] == starts[k] + (
    multibodies[roots[k].multibody.0 as int]->0).velocities@.len() by {
        assert(roots.take(k + 1).drop_last() == roots.take(k));
        assert(roots.take(k + 1).last() == roots[k]);
    }
    assert forall|k: int|
        #![trigger roots[k]]
        0 <= k < roots.len() && (forall|j: int|
            k < j < roots.len() ==> (#[trigger] roots[j]).multibody != roots[k].multibody) implies {
        let before = multibodies[roots[k].multibody.0 as int]->0;
        let after = with_solver_ids(multibodies, roots)[roots[k].multibody.0 as int];
        &&& after is Some
        &&& after->0.solver_id == starts[k]
        &&& after->0.root_is_dynamic == before.root_is_dynamic
        &&& after->0.velocities == before.velocities
        &&& after->0.accelerations == before.accelerations
    } by {
        lemma_last_root_decides(multibodies, roots, k);
        assert(contains_multibody(multibodies, roots[k].multibody));
        assert(multibodies[roots[k].multibody.0 as int] is Some);
    }
    starts
}

/// What initialization leaves. The buffers have one slot for each body, and less than four more,
/// which fill the last group of four. Every slot holds an empty body, a velocity of zero and
/// parameters without effect. Returns the state that the roots were prepared from: the world that
/// was given, the multibodies with their solver ids, and generic vectors of zeros with one row for
/// each degree of freedom.
pub proof fn law_initialized_buffers<W: MultibodyDynamics>(
    solver: VelocitySolver<W>,
    dt: W::Real,
    island: Seq<RigidBodyHandle>,
    world: W,
    multibodies: MultibodyJointSet<W::Real>,
    world_after: W,
    multibodies_after: MultibodyJointSet<W::Real>,
) -> (pre: SolverState<W>)
    requires
        solver.initialized_from(dt, island, world, multibodies, world_after, multibodies_after),
    ensures
        solver.solver_bodies@.len() % 4 == 0,
        island.len() <= solver.solver_bodies@.len() < island.len() + 4,
        forall|i: int|
            0 <= i < solver.solver_bodies@.len() ==> call_ensures(
                W::empty_solver_body,
                (),
                #[trigger] solver.solver_bodies@[i],
            ),
        solver.solver_vels_increment@.len() == solver.solver_bodies@.len(),
        forall|i: int|
            0 <= i < solver.solver_vels_increment@.len() ==> call_ensures(
                W::zero_solver_vel,
                (),
                #[trigger] solver.solver_vels_increment@[i],
            ),
        solver.solver_gyro@.len() == solver.solver_bodies@.len(),
        forall|i: int|
            0 <= i < solver.solver_gyro@.len() ==> call_ensures(
                W::default_gyro_params,
                (),
                #[trigger] solver.solver_gyro@[i],
            ),
        solver.multibody_roots@ == solver_roots(multibodies, island),
        pre.world == world,
        pre.multibodies == with_solver_ids(
            multibodies.multibodies@,
            solver_roots(multibodies, island),
        ),
        pre.vels.len() == total_dofs(
            multibodies.multibodies@,
            solver_roots(multibodies, island),
        ),
        pre.increment.len() == pre.vels.len(),
        forall|row: int|
            0 <= row < pre.vels.len() ==> call_ensures(W::zero, (), #[trigger] pre.vels[row]),
        forall|row: int|
            0 <= row < pre.increment.len() ==> call_ensures(
                W::zero,
                (),
                #[trigger] pre.increment[row],
            ),
        roots_prepared(
            solver_roots(multibodies, island),
            dt,
            pre,
            (SolverState {
                world: world_after,
                multibodies: multibodies_after.multibodies@,
                vels: solver.generic_solver_vels@,
                increment: solver.generic_solver_vels_increment@,
            }),
        ),
{
    law_aligned_len(island.len(), 4);
    let zero = choose|zero: W::Real|
        {
            &&& #[trigger] call_ensures(W::zero, (), zero)
            &&& roots_prepared(
                solver.multibody_roots@,
                dt,
                initial_state(world, multibodies, island, zero),
                solver.state(world_after, multibodies_after),
            )
        };
    initial_state(world, multibodies, island, zero)
}

} // verus!
