//! The linear momentum of the multibodies over substeps.

use crate::dynamics::MultibodyDynamics;
use crate::multibody::{Multibody, MultibodyIndex, MultibodyLinkId};
use vstd::prelude::*;

verus! {

broadcast use vstd::seq_lib::group_seq_properties;

use crate::buffers::rows;
use crate::dynamics::{
    balances, exact_momentum, law_ledger_credits_external_forces, momentum_ledger, steps_to,
};
use crate::multibody::multibody_at;
use crate::solver_laws::{
    disjoint_rows, distinct_roots, lemma_entry_kept, lemma_root_trace, lemma_roots_keep,
    lemma_split_integrated, lemma_trace_kept,
};
use crate::velocity_solver::{
    corrected, enters_substep, root_fits, root_integrated, roots_fit, roots_integrated,
    roots_keep_dimensions, steps_keep, SolverState,
};

/// Whether reconciliation meets the ledger of one multibody: if the multibody enters a substep
/// and reconciliation aims at what it then owes, that is the momentum it has afterwards.
///
/// Nothing is asked of other multibodies, such as those whose base is fixed, nor of targets that
/// are not in the ledger. `valid` tells the worlds that can come up.
pub open spec fn reconciles_momentum<W: MultibodyDynamics>(
    valid: spec_fn(W) -> bool,
    link: MultibodyLinkId,
    dt: W::Real,
    state: SolverState<W>,
) -> bool {
    forall|
        world: W,
        multibody: Multibody<W::Real>,
        increment: Vec<W::Real>,
        target: W::Momentum,
        out: (W, Option<Vec<W::Real>>),
        momentum: W::Momentum,
    |
        {
            &&& valid(world)
            &&& #[trigger] enters_substep(link, state, multibody, increment)
            &&& momentum_ledger(
                state.world,
                link.multibody,
                multibody,
                increment,
                dt,
                target,
            )
            &&& #[trigger] call_ensures(
                W::reconcile_base_linear_momentum,
                (world, link.multibody, &multibody, target),
                out,
            )
            &&& #[trigger] call_ensures(
                W::linear_momentum,
                (&out.0, link.multibody, &corrected(multibody, out.1)),
                momentum,
            )
        } ==> momentum == target
}

/// Whether neither the mass matrix nor the accelerations of a multibody have a part in its
/// momentum.
pub open spec fn refreshing_keeps_momentum<W: MultibodyDynamics>(
    valid: spec_fn(W) -> bool,
    index: MultibodyIndex,
) -> bool {
    &&& forall|
        world: W,
        multibody: Multibody<W::Real>,
        dt: W::Real,
        weighed: W,
        momentum: W::Momentum,
    |
        valid(world) && #[trigger] call_ensures(
            W::update_mass_matrix,
            (world, index, &multibody, dt),
            weighed,
        ) && #[trigger] call_ensures(
            W::linear_momentum,
            (&weighed, index, &multibody),
            momentum,
        ) ==> call_ensures(W::linear_momentum, (&world, index, &multibody), momentum)
    &&& forall|
        world: W,
        multibody: Multibody<W::Real>,
        dt: W::Real,
        out: (W, Vec<W::Real>),
        momentum: W::Momentum,
    |
        valid(world) && #[trigger] call_ensures(
            W::update_acceleration,
            (world, index, &multibody, dt),
            out,
        ) && #[trigger] call_ensures(
            W::linear_momentum,
            (&out.0, index, &(Multibody { accelerations: out.1, ..multibody })),
            momentum,
        ) ==> call_ensures(W::linear_momentum, (&world, index, &multibody), momentum)
}

/// Whether nothing that the momentum ledger of a multibody reads has changed between two worlds.
pub open spec fn reads_kept<W: MultibodyDynamics>(
    index: MultibodyIndex,
    before: W,
    after: W,
) -> bool {
    &&& forall|multibody: Multibody<W::Real>, momentum: W::Momentum| #[trigger]
        call_ensures(W::linear_momentum, (&after, index, &multibody), momentum) ==> call_ensures(
            W::linear_momentum,
            (&before, index, &multibody),
            momentum,
        )
    &&& forall|
        multibody: Multibody<W::Real>,
        increment: Vec<W::Real>,
        mapped: W::Momentum,
    | #[trigger]
        call_ensures(W::map_momentum, (&after, index, &multibody, &increment), mapped)
            ==> call_ensures(W::map_momentum, (&before, index, &multibody, &increment), mapped)
    &&& forall|multibody: Multibody<W::Real>, force: W::Force| #[trigger]
        call_ensures(W::total_external_force, (&after, index, &multibody), force)
            ==> call_ensures(W::total_external_force, (&before, index, &multibody), force)
}

/// Whether the steps of the multibodies of the roots lead from valid worlds to valid worlds and,
/// unless they are steps of one multibody itself, leave what its ledger reads alone.
pub open spec fn steps_apart<W: MultibodyDynamics>(
    valid: spec_fn(W) -> bool,
    roots: Seq<MultibodyLinkId>,
    other: MultibodyIndex,
) -> bool {
    forall|k: int, before: W, after: W|
        0 <= k < roots.len() && valid(before) && #[trigger] steps_to(
            roots[k].multibody,
            before,
            after,
        ) ==> valid(after) && (roots[k].multibody != other ==> reads_kept(other, before, after))
}

/// Whether the velocities that the solver hands over for a substep carry some momentum and, on top
/// of it, that of the increment.
pub open spec fn hands_over<W: MultibodyDynamics>(
    sum: spec_fn(W::Momentum, W::Momentum) -> W::Momentum,
    link: MultibodyLinkId,
    state: SolverState<W>,
    carried: W::Momentum,
) -> bool {
    forall|
        multibody: Multibody<W::Real>,
        increment: Vec<W::Real>,
        momentum: W::Momentum,
        mapped: W::Momentum,
    |
        enters_substep(link, state, multibody, increment) && #[trigger] call_ensures(
            W::linear_momentum,
            (&state.world, link.multibody, &multibody),
            momentum,
        ) && #[trigger] call_ensures(
            W::map_momentum,
            (&state.world, link.multibody, &multibody, &increment),
            mapped,
        ) ==> momentum == sum(carried, mapped)
}

/// Whether `force` is the external force on a multibody that enters a substep.
pub open spec fn feels_force<W: MultibodyDynamics>(
    link: MultibodyLinkId,
    state: SolverState<W>,
    force: W::Force,
) -> bool {
    forall|multibody: Multibody<W::Real>, increment: Vec<W::Real>, f: W::Force|
        #[trigger] enters_substep(link, state, multibody, increment) && #[trigger] call_ensures(
            W::total_external_force,
            (&state.world, link.multibody, &multibody),
            f,
        ) ==> f == force
}

/// Whether a multibody has some linear momentum.
pub open spec fn has_momentum<W: MultibodyDynamics>(
    link: MultibodyLinkId,
    state: SolverState<W>,
    momentum: W::Momentum,
) -> bool {
    call_ensures(
        W::linear_momentum,
        (&state.world, link.multibody, &multibody_at(state.multibodies, link.multibody)),
        momentum,
    )
}

/// Whether the momentum of a multibody is a linear map of its generalized velocities, and a change
/// of these carries what the same map gives.
pub open spec fn momentum_is_linear<W: MultibodyDynamics>(
    sum: spec_fn(W::Momentum, W::Momentum) -> W::Momentum,
    add_rows: spec_fn(Seq<W::Real>, Seq<W::Real>) -> Seq<W::Real>,
    map: spec_fn(Seq<W::Real>) -> W::Momentum,
    world: W,
    index: MultibodyIndex,
) -> bool {
    &&& forall|multibody: Multibody<W::Real>, momentum: W::Momentum| #[trigger]
        call_ensures(W::linear_momentum, (&world, index, &multibody), momentum) ==> momentum
            == map(multibody.velocities@)
    &&& forall|
        multibody: Multibody<W::Real>,
        increment: Vec<W::Real>,
        mapped: W::Momentum,
    | #[trigger]
        call_ensures(W::map_momentum, (&world, index, &multibody, &increment), mapped) ==> mapped
            == map(increment@)
    &&& forall|a: Seq<W::Real>, b: Seq<W::Real>| #[trigger]
        map(add_rows(a, b)) == sum(map(a), map(b))
}

/// However the joints of a multibody are driven, its momentum is handed over: if the solver adds
/// to its velocities the increment and impulses that carry no momentum, what it hands over carries
/// the momentum of those velocities and, on top of it, that of the increment.
pub proof fn law_driven_joints_hand_over<W: MultibodyDynamics>(
    sum: spec_fn(W::Momentum, W::Momentum) -> W::Momentum,
    add_rows: spec_fn(Seq<W::Real>, Seq<W::Real>) -> Seq<W::Real>,
    map: spec_fn(Seq<W::Real>) -> W::Momentum,
    link: MultibodyLinkId,
    state: SolverState<W>,
    velocities: Seq<W::Real>,
    internal: Seq<W::Real>,
)
    requires
        momentum_is_linear(sum, add_rows, map, state.world, link.multibody),
        forall|p: W::Momentum| #[trigger] sum(p, map(internal)) == p,
        ({
            let multibody = multibody_at(state.multibodies, link.multibody);
            let base = multibody.solver_id as int;
            rows(state.vels, base, multibody.dofs()) == add_rows(
                add_rows(velocities, rows(state.increment, base, multibody.dofs())),
                internal,
            )
        }),
    ensures
        hands_over(sum, link, state, map(velocities)),
{
}

/// Whether a multibody has one momentum at most, namely the one given.
pub open spec fn only_momentum<W: MultibodyDynamics>(
    link: MultibodyLinkId,
    state: SolverState<W>,
    target: W::Momentum,
) -> bool {
    forall|momentum: W::Momentum| #[trigger]
        has_momentum(link, state, momentum) ==> momentum == target
}

/// Whether the momentum that a multibody has in `post` is what the ledger says it owes when it
/// enters a substep from `pre`.
pub open spec fn meets_ledger<W: MultibodyDynamics>(
    link: MultibodyLinkId,
    dt: W::Real,
    pre: SolverState<W>,
    post: SolverState<W>,
) -> bool {
    exists|multibody: Multibody<W::Real>, increment: Vec<W::Real>, target: W::Momentum|
        {
            &&& #[trigger] enters_substep(link, pre, multibody, increment)
            &&& #[trigger] momentum_ledger(
                pre.world,
                link.multibody,
                multibody,
                increment,
                dt,
                target,
            )
            &&& only_momentum(link, post, target)
        }
}

/// What the ledger of a multibody says is the same as long as nothing that it reads changes.
proof fn lemma_ledger_kept<W: MultibodyDynamics>(
    index: MultibodyIndex,
    before: W,
    after: W,
    multibody: Multibody<W::Real>,
    increment: Vec<W::Real>,
    dt: W::Real,
    target: W::Momentum,
)
    requires
        reads_kept(index, before, after),
        momentum_ledger(after, index, multibody, increment, dt, target),
    ensures
        momentum_ledger(before, index, multibody, increment, dt, target),
{
    let (momentum, mapped, force) = choose|
        momentum: W::Momentum,
        mapped: W::Momentum,
        force: W::Force,
    |
        {
            &&& #[trigger] call_ensures(W::linear_momentum, (&after, index, &multibody), momentum)
            &&& #[trigger] call_ensures(
                W::map_momentum,
                (&after, index, &multibody, &increment),
                mapped,
            )
            &&& #[trigger] call_ensures(
                W::total_external_force,
                (&after, index, &multibody),
                force,
            )
            &&& balances::<W>(momentum, mapped, force, dt, target)
        };
    assert(call_ensures(W::linear_momentum, (&before, index, &multibody), momentum));
    assert(call_ensures(W::map_momentum, (&before, index, &multibody, &increment), mapped));
    assert(call_ensures(W::total_external_force, (&before, index, &multibody), force));
}

/// A multibody whose reconciliation meets its ledger ends at the momentum that it owes.
proof fn lemma_root_meets_ledger<W: MultibodyDynamics>(
    valid: spec_fn(W) -> bool,
    link: MultibodyLinkId,
    dt: W::Real,
    is_last_substep: bool,
    pre: SolverState<W>,
    post: SolverState<W>,
)
    requires
        valid(pre.world),
        steps_keep(seq![link], valid),
        reconciles_momentum(valid, link, dt, pre),
        refreshing_keeps_momentum(valid, link.multibody),
        root_fits(link, pre),
        root_integrated(link, dt, is_last_substep, pre, post),
    ensures
        meets_ledger(link, dt, pre, post),
{
    let index = link.multibody;
    let trace = lemma_root_trace(link, dt, is_last_substep, pre, post);
    lemma_trace_kept(trace, link, dt, is_last_substep, pre, post, valid);
    let reconciled = corrected(trace.entering, trace.out.1);
    assert(multibody_at(post.multibodies, index) == trace.last);
    assert forall|momentum: W::Momentum| #[trigger]
        has_momentum(link, post, momentum) implies momentum == trace.target by {
        if !is_last_substep {
            assert(call_ensures(
                W::linear_momentum,
                (
                    &trace.refreshed.0,
                    index,
                    &(Multibody { accelerations: trace.refreshed.1, ..reconciled }),
                ),
                momentum,
            ));
        }
        assert(call_ensures(W::linear_momentum, (&trace.weighed, index, &reconciled), momentum));
        assert(call_ensures(W::linear_momentum, (&trace.out.0, index, &reconciled), momentum));
    }
    assert(enters_substep(link, pre, trace.entering, trace.increment));
    assert(momentum_ledger(
        pre.world,
        index,
        trace.entering,
        trace.increment,
        dt,
        trace.target,
    ));
    assert(only_momentum(link, post, trace.target));
}

/// After a substep, a multibody whose reconciliation meets its ledger has the momentum that the
/// ledger says, whatever the arithmetic of momenta is and whatever other multibodies there are.
pub proof fn law_substep_meets_ledger<W: MultibodyDynamics>(
    valid: spec_fn(W) -> bool,
    roots: Seq<MultibodyLinkId>,
    dt: W::Real,
    is_last_substep: bool,
    pre: SolverState<W>,
    post: SolverState<W>,
    k: int,
)
    requires
        0 <= k < roots.len(),
        valid(pre.world),
        steps_apart(valid, roots, roots[k].multibody),
        reconciles_momentum(valid, roots[k], dt, pre),
        refreshing_keeps_momentum(valid, roots[k].multibody),
        roots_keep_dimensions(roots, pre.multibodies, pre.world),
        distinct_roots(roots),
        disjoint_rows(pre.multibodies, roots),
        roots_fit(roots, pre),
        roots_integrated(roots, dt, is_last_substep, pre, post),
    ensures
        meets_ledger(roots[k], dt, pre, post),
    decreases roots.len(),
{
    let n = roots.len() - 1;
    let front = roots.drop_last();
    let link = roots[k];
    let index = link.multibody;
    let mid = lemma_split_integrated(roots, dt, is_last_substep, pre, post);
    assert(root_fits(roots[n], pre) && root_fits(link, pre));
    assert forall|j: int, before: W, after: W|
        0 <= j < front.len() && valid(before) && #[trigger] steps_to(
            front[j].multibody,
            before,
            after,
        ) implies valid(after) && (front[j].multibody != index ==> reads_kept(
        index,
        before,
        after,
    )) by {
        assert(steps_to(roots[j].multibody, before, after));
    }
    assert(steps_keep(front, valid));
    lemma_roots_keep(front, dt, is_last_substep, pre, mid, valid);
    if k < n {
        assert(front[k] == link);
        law_substep_meets_ledger(valid, front, dt, is_last_substep, pre, mid, k);
        let (multibody, increment, target) = choose|
            multibody: Multibody<W::Real>,
            increment: Vec<W::Real>,
            target: W::Momentum,
        |
            {
                &&& #[trigger] enters_substep(link, pre, multibody, increment)
                &&& #[trigger] momentum_ledger(
                    pre.world,
                    index,
                    multibody,
                    increment,
                    dt,
                    target,
                )
                &&& only_momentum(link, mid, target)
            };
        assert(index != roots[n].multibody);
        let inv = |world: W| valid(world) && reads_kept(index, mid.world, world);
        let single = seq![roots.last()];
        assert forall|j: int, before: W, after: W|
            0 <= j < single.len() && inv(before) && #[trigger] steps_to(
                single[j].multibody,
                before,
                after,
            ) implies inv(after) by {
            assert(steps_to(roots[n].multibody, before, after));
        }
        assert(single.drop_last() == Seq::<MultibodyLinkId>::empty());
        assert(roots_integrated(single.drop_last(), dt, is_last_substep, mid, mid));
        assert(root_integrated(single.last(), dt, is_last_substep, mid, post));
        assert(roots_integrated(single, dt, is_last_substep, mid, post));
        lemma_roots_keep(single, dt, is_last_substep, mid, post, inv);
        assert(post.multibodies[index.0 as int] == mid.multibodies[index.0 as int]);
        assert forall|momentum: W::Momentum| #[trigger]
            has_momentum(link, post, momentum) implies momentum == target by {
            assert(has_momentum(link, mid, momentum));
        }
        assert(only_momentum(link, post, target));
    } else {
        assert forall|j: int| 0 <= j < front.len() implies (#[trigger] front[j]).multibody
            != index by {
            assert(front[j] == roots[j]);
            assert(roots[j].multibody != roots[n].multibody);
        }
        let inv = |world: W| valid(world) && reads_kept(index, pre.world, world);
        assert forall|j: int, before: W, after: W|
            0 <= j < front.len() && inv(before) && #[trigger] steps_to(
                front[j].multibody,
                before,
                after,
            ) implies inv(after) by {
            assert(front[j].multibody != index);
            assert(reads_kept(index, before, after));
        }
        lemma_roots_keep(front, dt, is_last_substep, pre, mid, inv);
        assert forall|multibody: Multibody<W::Real>, increment: Vec<W::Real>| #[trigger]
            enters_substep(link, mid, multibody, increment) implies enters_substep(
            link,
            pre,
            multibody,
            increment,
        ) by {
            lemma_entry_kept(roots, pre, mid, multibody, increment);
        }
        assert forall|
            world: W,
            multibody: Multibody<W::Real>,
            increment: Vec<W::Real>,
            target: W::Momentum,
            out: (W, Option<Vec<W::Real>>),
            momentum: W::Momentum,
        |
            {
                &&& valid(world)
                &&& #[trigger] enters_substep(link, mid, multibody, increment)
                &&& momentum_ledger(mid.world, index, multibody, increment, dt, target)
                &&& #[trigger] call_ensures(
                    W::reconcile_base_linear_momentum,
                    (world, index, &multibody, target),
                    out,
                )
                &&& #[trigger] call_ensures(
                    W::linear_momentum,
                    (&out.0, index, &corrected(multibody, out.1)),
                    momentum,
                )
            } implies momentum == target by {
            assert(enters_substep(link, pre, multibody, increment));
            lemma_ledger_kept(index, pre.world, mid.world, multibody, increment, dt, target);
        }
        let single = seq![link];
        assert forall|j: int, before: W, after: W|
            0 <= j < single.len() && valid(before) && #[trigger] steps_to(
                single[j].multibody,
                before,
                after,
            ) implies valid(after) by {
            assert(steps_to(roots[n].multibody, before, after));
        }
        lemma_root_meets_ledger(valid, link, dt, is_last_substep, mid, post);
        let (multibody, increment, target) = choose|
            multibody: Multibody<W::Real>,
            increment: Vec<W::Real>,
            target: W::Momentum,
        |
            {
                &&& #[trigger] enters_substep(link, mid, multibody, increment)
                &&& #[trigger] momentum_ledger(
                    mid.world,
                    index,
                    multibody,
                    increment,
                    dt,
                    target,
                )
                &&& only_momentum(link, post, target)
            };
        lemma_ledger_kept(index, pre.world, mid.world, multibody, increment, dt, target);
        assert(enters_substep(link, pre, multibody, increment));
    }
}

/// A substep changes the linear momentum of a multibody whose reconciliation meets its ledger by
/// the impulse of the external forces on it and by nothing else, however its joints are driven.
///
/// The velocities that the solver hands over for the multibody carry some momentum and, on top of
/// it, that of the increment. At the end of the substep the multibody has the first of these, plus
/// the impulse of the external forces.
pub proof fn law_substep_momentum<W: MultibodyDynamics>(
    valid: spec_fn(W) -> bool,
    sum: spec_fn(W::Momentum, W::Momentum) -> W::Momentum,
    difference: spec_fn(W::Momentum, W::Momentum) -> W::Momentum,
    impulse: spec_fn(W::Force, W::Real) -> W::Momentum,
    roots: Seq<MultibodyLinkId>,
    dt: W::Real,
    is_last_substep: bool,
    pre: SolverState<W>,
    post: SolverState<W>,
    k: int,
    carried: W::Momentum,
    force: W::Force,
)
    requires
        exact_momentum::<W>(sum, difference, impulse),
        0 <= k < roots.len(),
        valid(pre.world),
        steps_apart(valid, roots, roots[k].multibody),
        reconciles_momentum(valid, roots[k], dt, pre),
        refreshing_keeps_momentum(valid, roots[k].multibody),
        roots_keep_dimensions(roots, pre.multibodies, pre.world),
        distinct_roots(roots),
        disjoint_rows(pre.multibodies, roots),
        roots_fit(roots, pre),
        roots_integrated(roots, dt, is_last_substep, pre, post),
        hands_over(sum, roots[k], pre, carried),
        feels_force(roots[k], pre, force),
    ensures
        forall|momentum: W::Momentum| #[trigger]
            has_momentum(roots[k], post, momentum) ==> momentum == sum(
                carried,
                impulse(force, dt),
            ),
        (forall|p: W::Momentum| #[trigger] sum(p, impulse(force, dt)) == p) ==> forall|
            momentum: W::Momentum,
        | #[trigger]
            has_momentum(roots[k], post, momentum) ==> momentum == carried,
{
    let link = roots[k];
    let index = link.multibody;
    law_substep_meets_ledger(valid, roots, dt, is_last_substep, pre, post, k);
    let (multibody, increment, target) = choose|
        multibody: Multibody<W::Real>,
        increment: Vec<W::Real>,
        target: W::Momentum,
    |
        {
            &&& #[trigger] enters_substep(link, pre, multibody, increment)
            &&& #[trigger] momentum_ledger(pre.world, index, multibody, increment, dt, target)
            &&& only_momentum(link, post, target)
        };
    let (momentum, mapped, f) = choose|
        momentum: W::Momentum,
        mapped: W::Momentum,
        f: W::Force,
    |
        {
            &&& #[trigger] call_ensures(
                W::linear_momentum,
                (&pre.world, index, &multibody),
                momentum,
            )
            &&& #[trigger] call_ensures(
                W::map_momentum,
                (&pre.world, index, &multibody, &increment),
                mapped,
            )
            &&& #[trigger] call_ensures(
                W::total_external_force,
                (&pre.world, index, &multibody),
                f,
            )
            &&& balances::<W>(momentum, mapped, f, dt, target)
        };
    law_ledger_credits_external_forces::<W>(
        sum,
        difference,
        impulse,
        carried,
        mapped,
        f,
        dt,
        target,
    );
}

/// What a momentum becomes when impulses are credited to it, one after the other.
pub open spec fn accumulated<V>(sum: spec_fn(V, V) -> V, start: V, impulses: Seq<V>) -> V
    decreases impulses.len(),
{
    if impulses.len() == 0 {
        start
    } else {
        sum(accumulated(sum, start, impulses.drop_last()), impulses.last())
    }
}

/// One substep of a run: the roots are integrated from `pre` to `post`. The velocities that are
/// handed over for one multibody carry a momentum and, on top of it, that of the increment, its
/// reconciliation meets its ledger, and `left` is the momentum that it has at the end.
pub open spec fn substep_of_run<W: MultibodyDynamics>(
    valid: spec_fn(W) -> bool,
    sum: spec_fn(W::Momentum, W::Momentum) -> W::Momentum,
    roots: Seq<MultibodyLinkId>,
    dt: W::Real,
    k: int,
    pre: SolverState<W>,
    post: SolverState<W>,
    carried: W::Momentum,
    force: W::Force,
    left: W::Momentum,
) -> bool {
    &&& valid(pre.world)
    &&& reconciles_momentum(valid, roots[k], dt, pre)
    &&& roots_keep_dimensions(roots, pre.multibodies, pre.world)
    &&& disjoint_rows(pre.multibodies, roots)
    &&& roots_fit(roots, pre)
    &&& exists|is_last_substep: bool| #[trigger]
        roots_integrated(roots, dt, is_last_substep, pre, post)
    &&& hands_over(sum, roots[k], pre, carried)
    &&& feels_force(roots[k], pre, force)
    &&& has_momentum(roots[k], post, left)
}

/// Over any number of substeps, however the increments and the joints behave, the momentum of a
/// multibody whose reconciliation meets its ledger changes by the impulses of the external forces
/// alone. Where these have no effect it never changes.
///
/// Each substep takes up the momentum that the one before it left. That is so whenever the
/// constraints that are solved in between carry none.
pub proof fn law_momentum_over_substeps<W: MultibodyDynamics>(
    valid: spec_fn(W) -> bool,
    sum: spec_fn(W::Momentum, W::Momentum) -> W::Momentum,
    difference: spec_fn(W::Momentum, W::Momentum) -> W::Momentum,
    impulse: spec_fn(W::Force, W::Real) -> W::Momentum,
    roots: Seq<MultibodyLinkId>,
    dt: W::Real,
    k: int,
    pre: Seq<SolverState<W>>,
    post: Seq<SolverState<W>>,
    momenta: Seq<W::Momentum>,
    forces: Seq<W::Force>,
)
    requires
        exact_momentum::<W>(sum, difference, impulse),
        0 <= k < roots.len(),
        steps_apart(valid, roots, roots[k].multibody),
        refreshing_keeps_momentum(valid, roots[k].multibody),
        distinct_roots(roots),
        post.len() == pre.len(),
        forces.len() == pre.len(),
        momenta.len() == pre.len() + 1,
        forall|s: int|
            0 <= s < pre.len() ==> substep_of_run(
                valid,
                sum,
                roots,
                dt,
                k,
                #[trigger] pre[s],
                post[s],
                momenta[s],
                forces[s],
                momenta[s + 1],
            ),
    ensures
        momenta.last() == accumulated(
            sum,
            momenta[0],
            forces.map_values(|force: W::Force| impulse(force, dt)),
        ),
        (forall|s: int|
            #![trigger forces[s]]
            0 <= s < forces.len() ==> forall|p: W::Momentum| #[trigger]
                sum(p, impulse(forces[s], dt)) == p) ==> momenta.last() == momenta[0],
    decreases pre.len(),
{
    let n = pre.len() as int;
    let credits = forces.map_values(|force: W::Force| impulse(force, dt));
    if n > 0 {
        let pre_before = pre.drop_last();
        let post_before = post.drop_last();
        let momenta_before = momenta.drop_last();
        let forces_before = forces.drop_last();
        assert forall|s: int| 0 <= s < pre_before.len() implies substep_of_run(
            valid,
            sum,
            roots,
            dt,
            k,
            #[trigger] pre_before[s],
            post_before[s],
            momenta_before[s],
            forces_before[s],
            momenta_before[s + 1],
        ) by {
            assert(pre[s] == pre_before[s]);
        }
        law_momentum_over_substeps(
            valid,
            sum,
            difference,
            impulse,
            roots,
            dt,
            k,
            pre_before,
            post_before,
            momenta_before,
            forces_before,
        );
        assert(substep_of_run(
            valid,
            sum,
            roots,
            dt,
            k,
            pre[n - 1],
            post[n - 1],
            momenta[n - 1],
            forces[n - 1],
            momenta[n],
        ));
        let is_last_substep = choose|is_last_substep: bool| #[trigger]
            roots_integrated(roots, dt, is_last_substep, pre[n - 1], post[n - 1]);
        law_substep_momentum(
            valid,
            sum,
            difference,
            impulse,
            roots,
            dt,
            is_last_substep,
            pre[n - 1],
            post[n - 1],
            k,
            momenta[n - 1],
            forces[n - 1],
        );
        assert(momenta[n] == sum(momenta[n - 1], impulse(forces[n - 1], dt)));
        assert(credits.drop_last() == forces_before.map_values(
            |force: W::Force| impulse(force, dt),
        ));
        assert(credits.last() == impulse(forces[n - 1], dt));
        if forall|s: int|
            #![trigger forces[s]]
            0 <= s < forces.len() ==> forall|p: W::Momentum| #[trigger]
                sum(p, impulse(forces[s], dt)) == p {
            assert forall|s: int|
                #![trigger forces_before[s]]
                0 <= s < forces_before.len() implies forall|p: W::Momentum| #[trigger]
                sum(p, impulse(forces_before[s], dt)) == p by {
                assert(forces_before[s] == forces[s]);
            }
        }
    }
}

} // verus!
