//! What holds of the multibody part of the velocity solver as a whole.

use crate::dynamics::MultibodyDynamics;
use crate::multibody::{
    Multibody, MultibodyIndex, MultibodyJointSet, MultibodyLinkId, RigidBodyHandle,
};
use vstd::prelude::*;

verus! {

broadcast use vstd::seq_lib::group_seq_properties;

use crate::buffers::{rows, with_rows};
use crate::dynamics::{keeps_dimensions, momentum_ledger, steps_to};
use crate::multibody::{contains_multibody, multibody_at};
use crate::velocity_solver::{
    corrected, enters_substep, initial_state, lemma_reachable, lemma_roots_resolve,
    lemma_same_layout_fits, lemma_step_kept, lemma_steps_keep_one, lemma_with_solver_ids,
    links_resolve, root_fits, root_integrated, root_moved, root_prepared, root_refreshed,
    roots_fit, roots_integrated, roots_keep_dimensions, roots_prepared, roots_resolve,
    same_but_ids, same_layout, scaled_rows, sizes_kept, solver_roots, steps_keep, total_dofs,
    with_solver_ids, SolverState,
};

/// Whether no two roots lead to the same multibody.
pub open spec fn distinct_roots(roots: Seq<MultibodyLinkId>) -> bool {
    forall|i: int, j: int|
        0 <= i < j < roots.len() ==> (#[trigger] roots[i]).multibody != (
        #[trigger] roots[j]).multibody
}

/// Whether a row of the generic vectors belongs to the multibody of a root.
pub open spec fn owns_row<R>(
    multibodies: Seq<Option<Multibody<R>>>,
    link: MultibodyLinkId,
    row: int,
) -> bool {
    let multibody = multibody_at(multibodies, link.multibody);
    multibody.solver_id <= row < multibody.solver_id + multibody.dofs()
}

/// Whether a row of the generic vectors belongs to the multibody of one of the roots.
pub open spec fn row_is_owned<R>(
    multibodies: Seq<Option<Multibody<R>>>,
    roots: Seq<MultibodyLinkId>,
    row: int,
) -> bool {
    exists|k: int| 0 <= k < roots.len() && #[trigger] owns_row(multibodies, roots[k], row)
}

/// Whether no row of the generic vectors belongs to two roots.
pub open spec fn disjoint_rows<R>(
    multibodies: Seq<Option<Multibody<R>>>,
    roots: Seq<MultibodyLinkId>,
) -> bool {
    forall|i: int, j: int, row: int|
        0 <= i < j < roots.len() ==> !(#[trigger] owns_row(multibodies, roots[i], row)
            && #[trigger] owns_row(multibodies, roots[j], row))
}

proof fn lemma_total_dofs_take<R>(
    multibodies: Seq<Option<Multibody<R>>>,
    roots: Seq<MultibodyLinkId>,
    i: int,
    j: int,
)
    requires
        0 <= i <= j <= roots.len(),
    ensures
        total_dofs(multibodies, roots.take(i)) <= total_dofs(multibodies, roots.take(j)),
        i < roots.len() ==> total_dofs(multibodies, roots.take(i + 1)) == total_dofs(
            multibodies,
            roots.take(i),
        ) + multibody_at(multibodies, roots[i].multibody).dofs(),
    decreases j - i,
{
    if i < roots.len() {
        assert(roots.take(i + 1).drop_last() == roots.take(i));
        assert(roots.take(i + 1).last() == roots[i]);
    }
    if i < j {
        lemma_total_dofs_take(multibodies, roots, i + 1, j);
    }
}

proof fn lemma_ids_of_distinct_roots<R>(
    multibodies: Seq<Option<Multibody<R>>>,
    roots: Seq<MultibodyLinkId>,
)
    requires
        roots_resolve(multibodies, roots),
        total_dofs(multibodies, roots) <= u32::MAX,
        distinct_roots(roots),
    ensures
        same_but_ids(multibodies, with_solver_ids(multibodies, roots)),
        forall|k: int|
            0 <= k < roots.len() ==> multibody_at(
                with_solver_ids(multibodies, roots),
                (#[trigger] roots[k]).multibody,
            ).solver_id == total_dofs(multibodies, roots.take(k)),
    decreases roots.len(),
{
    if roots.len() > 0 {
        let front = roots.drop_last();
        let last = roots.last();
        assert forall|k: int| 0 <= k < front.len() implies contains_multibody(
            multibodies,
            (#[trigger] front[k]).multibody,
        ) by {
            assert(front[k] == roots[k]);
        }
        assert forall|i: int, j: int| 0 <= i < j < front.len() implies (
        #[trigger] front[i]).multibody != (#[trigger] front[j]).multibody by {
            assert(front[i] == roots[i] && front[j] == roots[j]);
        }
        lemma_ids_of_distinct_roots(multibodies, front);
        assert(contains_multibody(multibodies, roots[roots.len() - 1].multibody));
        let n = roots.len() - 1;
        assert(roots.take(n) == front);
        assert forall|k: int| 0 <= k < roots.len() implies multibody_at(
            with_solver_ids(multibodies, roots),
            (#[trigger] roots[k]).multibody,
        ).solver_id == total_dofs(multibodies, roots.take(k)) by {
            if k < n {
                assert(front[k] == roots[k]);
                assert(front.take(k) == roots.take(k));
                assert(roots[k].multibody != roots[n].multibody);
            }
        }
    }
}

/// The solver ids lay the multibodies of distinct roots out one after the other, in the order of
/// the roots: each starts where the degrees of freedom of those before it end. No row of the
/// generic vectors belongs to two of them, and every row up to their number of degrees of freedom
/// belongs to one.
pub proof fn law_solver_ids_tile<R>(
    multibodies: Seq<Option<Multibody<R>>>,
    roots: Seq<MultibodyLinkId>,
)
    requires
        roots_resolve(multibodies, roots),
        total_dofs(multibodies, roots) <= u32::MAX,
        distinct_roots(roots),
    ensures
        forall|k: int|
            0 <= k < roots.len() ==> multibody_at(
                with_solver_ids(multibodies, roots),
                (#[trigger] roots[k]).multibody,
            ).solver_id == total_dofs(multibodies, roots.take(k)),
        disjoint_rows(with_solver_ids(multibodies, roots), roots),
        forall|row: int|
            #[trigger] row_is_owned(with_solver_ids(multibodies, roots), roots, row) <==> 0 <= row
                < total_dofs(multibodies, roots),
{
    let assigned = with_solver_ids(multibodies, roots);
    lemma_ids_of_distinct_roots(multibodies, roots);
    assert forall|k: int, row: int| 0 <= k < roots.len() implies #[trigger] owns_row(
        assigned,
        roots[k],
        row,
    ) == (total_dofs(multibodies, roots.take(k)) <= row < total_dofs(
        multibodies,
        roots.take(k + 1),
    )) by {
        lemma_total_dofs_take(multibodies, roots, k, k);
        assert(contains_multibody(multibodies, roots[k].multibody));
        assert(multibodies[roots[k].multibody.0 as int] is Some);
    }
    assert forall|i: int, j: int, row: int| 0 <= i < j < roots.len() implies !(
    #[trigger] owns_row(assigned, roots[i], row) && #[trigger] owns_row(
        assigned,
        roots[j],
        row,
    )) by {
        lemma_total_dofs_take(multibodies, roots, i + 1, j);
    }
    assert(roots.take(roots.len() as int) == roots);
    assert forall|row: int| #[trigger]
        row_is_owned(assigned, roots, row) <==> 0 <= row < total_dofs(multibodies, roots) by {
        if 0 <= row < total_dofs(multibodies, roots) {
            let k = lemma_find_owner(multibodies, roots, row, roots.len() as int);
            assert(owns_row(assigned, roots[k], row));
        }
        if row_is_owned(assigned, roots, row) {
            let k = choose|k: int|
                0 <= k < roots.len() && #[trigger] owns_row(assigned, roots[k], row);
            lemma_total_dofs_take(multibodies, roots, k + 1, roots.len() as int);
        }
    }
}

/// Finds the root whose degrees of freedom hold a row.
proof fn lemma_find_owner<R>(
    multibodies: Seq<Option<Multibody<R>>>,
    roots: Seq<MultibodyLinkId>,
    row: int,
    n: int,
) -> (k: int)
    requires
        0 <= n <= roots.len(),
        0 <= row < total_dofs(multibodies, roots.take(n)),
    ensures
        0 <= k < n,
        total_dofs(multibodies, roots.take(k)) <= row < total_dofs(
            multibodies,
            roots.take(k + 1),
        ),
    decreases n,
{
    assert(n > 0);
    if total_dofs(multibodies, roots.take(n - 1)) <= row {
        n - 1
    } else {
        lemma_find_owner(multibodies, roots, row, n - 1)
    }
}

/// Whether the rows of the solver velocities that belong to a multibody are its own velocities.
pub open spec fn mirrors_velocities<W: MultibodyDynamics>(
    link: MultibodyLinkId,
    state: SolverState<W>,
) -> bool {
    let multibody = multibody_at(state.multibodies, link.multibody);
    rows(state.vels, multibody.solver_id as int, multibody.dofs()) == multibody.velocities@
}

/// Whether the rows of the increment that belong to a multibody are `dt` times its accelerations.
pub open spec fn holds_increment<W: MultibodyDynamics>(
    link: MultibodyLinkId,
    dt: W::Real,
    state: SolverState<W>,
) -> bool {
    let multibody = multibody_at(state.multibodies, link.multibody);
    &&& multibody.accelerations@.len() == multibody.dofs()
    &&& forall|d: int|
        0 <= d < multibody.dofs() ==> #[trigger] call_ensures(
            W::product,
            (dt, multibody.accelerations@[d]),
            state.increment[multibody.solver_id + d],
        )
}

/// Whether nothing differs between two states but the world, the multibody of a root and the rows
/// that belong to it.
pub open spec fn same_outside<W: MultibodyDynamics>(
    link: MultibodyLinkId,
    pre: SolverState<W>,
    post: SolverState<W>,
) -> bool {
    &&& same_layout(pre, post)
    &&& forall|i: int|
        0 <= i < pre.multibodies.len() && i != link.multibody.0 ==> #[trigger] post.multibodies[i]
            == pre.multibodies[i]
    &&& forall|row: int|
        0 <= row < pre.vels.len() && !owns_row(pre.multibodies, link, row)
            ==> #[trigger] post.vels[row] == pre.vels[row]
    &&& forall|row: int|
        0 <= row < pre.increment.len() && !owns_row(pre.multibodies, link, row)
            ==> #[trigger] post.increment[row] == pre.increment[row]
}

/// Whether nothing differs between two states but the world, the multibodies of the roots and the
/// rows that belong to them.
pub open spec fn same_outside_roots<W: MultibodyDynamics>(
    roots: Seq<MultibodyLinkId>,
    pre: SolverState<W>,
    post: SolverState<W>,
) -> bool {
    &&& same_layout(pre, post)
    &&& forall|i: int|
        0 <= i < pre.multibodies.len() && (forall|k: int|
            0 <= k < roots.len() ==> (#[trigger] roots[k]).multibody.0 != i)
            ==> #[trigger] post.multibodies[i] == pre.multibodies[i]
    &&& forall|row: int|
        0 <= row < pre.vels.len() && !row_is_owned(pre.multibodies, roots, row)
            ==> #[trigger] post.vels[row] == pre.vels[row]
    &&& forall|row: int|
        0 <= row < pre.increment.len() && !row_is_owned(pre.multibodies, roots, row)
            ==> #[trigger] post.increment[row] == pre.increment[row]
}

proof fn lemma_root_prepared<W: MultibodyDynamics>(
    valid: spec_fn(W) -> bool,
    link: MultibodyLinkId,
    dt: W::Real,
    pre: SolverState<W>,
    post: SolverState<W>,
)
    requires
        valid(pre.world),
        steps_keep(seq![link], valid),
        keeps_dimensions(
            valid,
            link.multibody,
            multibody_at(pre.multibodies, link.multibody).dofs(),
        ),
        root_fits(link, pre),
        root_prepared(link, dt, pre, post),
    ensures
        valid(post.world),
        same_outside(link, pre, post),
        mirrors_velocities(link, post),
        holds_increment(link, dt, post),
{
    let index = link.multibody;
    let multibody = multibody_at(pre.multibodies, index);
    let (moved, weighed, out) = choose|moved: W, weighed: W, out: (W, Vec<W::Real>)|
        {
            &&& #[trigger] call_ensures(
                W::update_velocities,
                (pre.world, index, &multibody),
                moved,
            )
            &&& #[trigger] call_ensures(
                W::update_mass_matrix,
                (moved, index, &multibody, dt),
                weighed,
            )
            &&& #[trigger] call_ensures(
                W::update_acceleration,
                (weighed, index, &multibody, dt),
                out,
            )
            &&& post.world == out.0
            &&& post.multibodies == pre.multibodies.update(
                index.0 as int,
                Some(Multibody { accelerations: out.1, ..multibody }),
            )
            &&& scaled_rows::<W>(
                pre.increment,
                multibody.solver_id as int,
                dt,
                out.1@,
                post.increment,
            )
            &&& post.vels == with_rows(
                pre.vels,
                multibody.solver_id as int,
                multibody.velocities@,
            )
        };
    lemma_step_kept(seq![link], 0, valid, pre.world, moved);
    lemma_step_kept(seq![link], 0, valid, moved, weighed);
    lemma_step_kept(seq![link], 0, valid, weighed, post.world);
    let after = multibody_at(post.multibodies, index);
    assert(rows(post.vels, after.solver_id as int, after.dofs()) == after.velocities@);
}

proof fn lemma_root_integrated<W: MultibodyDynamics>(
    valid: spec_fn(W) -> bool,
    link: MultibodyLinkId,
    dt: W::Real,
    is_last_substep: bool,
    pre: SolverState<W>,
    post: SolverState<W>,
)
    requires
        valid(pre.world),
        steps_keep(seq![link], valid),
        keeps_dimensions(
            valid,
            link.multibody,
            multibody_at(pre.multibodies, link.multibody).dofs(),
        ),
        root_fits(link, pre),
        root_integrated(link, dt, is_last_substep, pre, post),
    ensures
        valid(post.world),
        same_outside(link, pre, post),
        mirrors_velocities(link, post),
        is_last_substep ==> post.increment == pre.increment,
        !is_last_substep ==> holds_increment(link, dt, post),
{
    let trace = lemma_root_trace(link, dt, is_last_substep, pre, post);
    lemma_trace_kept(trace, link, dt, is_last_substep, pre, post, valid);
    let after = multibody_at(post.multibodies, link.multibody);
    assert(after == trace.last);
    assert(rows(post.vels, after.solver_id as int, after.dofs()) == after.velocities@);
}

/// What holds of the multibody of one root still holds after another one, with rows of its own,
/// has been worked on.
proof fn lemma_other_root_kept<W: MultibodyDynamics>(
    roots: Seq<MultibodyLinkId>,
    k: int,
    dt: W::Real,
    pre: SolverState<W>,
    mid: SolverState<W>,
    post: SolverState<W>,
)
    requires
        distinct_roots(roots),
        disjoint_rows(pre.multibodies, roots),
        roots_fit(roots, pre),
        same_layout(pre, mid),
        0 <= k < roots.len() - 1,
        same_outside(roots.last(), mid, post),
    ensures
        rows(
            post.vels,
            multibody_at(pre.multibodies, roots[k].multibody).solver_id as int,
            multibody_at(pre.multibodies, roots[k].multibody).dofs(),
        ) == rows(
            mid.vels,
            multibody_at(pre.multibodies, roots[k].multibody).solver_id as int,
            multibody_at(pre.multibodies, roots[k].multibody).dofs(),
        ),
        mirrors_velocities(roots[k], mid) ==> mirrors_velocities(roots[k], post),
        holds_increment(roots[k], dt, mid) ==> holds_increment(roots[k], dt, post),
{
    let n = roots.len() - 1;
    let link = roots[k];
    assert(root_fits(link, pre) && root_fits(roots[n], pre));
    assert(pre.multibodies[link.multibody.0 as int] is Some);
    assert(pre.multibodies[roots[n].multibody.0 as int] is Some);
    assert(link.multibody != roots[n].multibody);
    let before = multibody_at(mid.multibodies, link.multibody);
    assert(multibody_at(post.multibodies, link.multibody) == before);
    let base = before.solver_id as int;
    assert forall|d: int| 0 <= d < before.dofs() implies !(#[trigger] owns_row(
        mid.multibodies,
        roots.last(),
        base + d,
    )) by {
        assert(owns_row(pre.multibodies, roots[k], base + d));
        assert(!owns_row(pre.multibodies, roots[n], base + d));
    }
    assert forall|d: int| 0 <= d < before.dofs() implies rows(post.vels, base, before.dofs())[d]
        == rows(mid.vels, base, before.dofs())[d] by {
        assert(!owns_row(mid.multibodies, roots.last(), base + d));
    }
    assert(rows(post.vels, base, before.dofs()) == rows(mid.vels, base, before.dofs()));
    if holds_increment(link, dt, mid) {
        assert forall|d: int| 0 <= d < before.dofs() implies #[trigger] call_ensures(
            W::product,
            (dt, before.accelerations@[d]),
            post.increment[before.solver_id + d],
        ) by {
            assert(!owns_row(mid.multibodies, roots.last(), base + d));
            assert(call_ensures(
                W::product,
                (dt, before.accelerations@[d]),
                mid.increment[before.solver_id + d],
            ));
        }
    }
}

proof fn lemma_same_outside_push<W: MultibodyDynamics>(
    roots: Seq<MultibodyLinkId>,
    pre: SolverState<W>,
    mid: SolverState<W>,
    post: SolverState<W>,
)
    requires
        roots.len() > 0,
        roots_fit(roots, pre),
        same_outside_roots(roots.drop_last(), pre, mid),
        same_outside(roots.last(), mid, post),
    ensures
        same_outside_roots(roots, pre, post),
{
    let front = roots.drop_last();
    let n = roots.len() - 1;
    assert(root_fits(roots[n], pre));
    assert(pre.multibodies[roots[n].multibody.0 as int] is Some);
    assert forall|row: int|
        #![trigger row_is_owned(pre.multibodies, front, row)]
        row_is_owned(pre.multibodies, front, row) implies row_is_owned(
        pre.multibodies,
        roots,
        row,
    ) by {
        let k = choose|k: int|
            0 <= k < front.len() && #[trigger] owns_row(pre.multibodies, front[k], row);
        assert(owns_row(pre.multibodies, roots[k], row));
    }
    assert forall|row: int|
        #![trigger owns_row(mid.multibodies, roots.last(), row)]
        owns_row(mid.multibodies, roots.last(), row) implies row_is_owned(
        pre.multibodies,
        roots,
        row,
    ) by {
        assert(owns_row(pre.multibodies, roots[n], row));
    }
    assert forall|i: int|
        0 <= i < pre.multibodies.len() && (forall|k: int|
            0 <= k < roots.len() ==> (#[trigger] roots[k]).multibody.0
                != i) implies #[trigger] post.multibodies[i] == pre.multibodies[i] by {
        assert forall|k: int| 0 <= k < front.len() implies (#[trigger] front[k]).multibody.0
            != i by {
            assert(front[k] == roots[k]);
        }
        assert(roots[n].multibody.0 != i);
        assert(mid.multibodies[i] == pre.multibodies[i]);
    }
    assert forall|row: int|
        0 <= row < pre.vels.len() && !row_is_owned(
            pre.multibodies,
            roots,
            row,
        ) implies #[trigger] post.vels[row] == pre.vels[row] by {
        assert(!row_is_owned(pre.multibodies, front, row));
        assert(!owns_row(mid.multibodies, roots.last(), row));
        assert(mid.vels[row] == pre.vels[row]);
    }
    assert forall|row: int|
        0 <= row < pre.increment.len() && !row_is_owned(
            pre.multibodies,
            roots,
            row,
        ) implies #[trigger] post.increment[row] == pre.increment[row] by {
        assert(!row_is_owned(pre.multibodies, front, row));
        assert(!owns_row(mid.multibodies, roots.last(), row));
        assert(mid.increment[row] == pre.increment[row]);
    }
}

/// What is asked of the roots holds of all but the last one.
proof fn lemma_front_roots<W: MultibodyDynamics>(
    roots: Seq<MultibodyLinkId>,
    state: SolverState<W>,
)
    requires
        roots.len() > 0,
        roots_keep_dimensions(roots, state.multibodies, state.world),
        roots_fit(roots, state),
    ensures
        roots_keep_dimensions(roots.drop_last(), state.multibodies, state.world),
        roots_fit(roots.drop_last(), state),
        distinct_roots(roots) ==> distinct_roots(roots.drop_last()),
        disjoint_rows(state.multibodies, roots) ==> disjoint_rows(
            state.multibodies,
            roots.drop_last(),
        ),
{
    let front = roots.drop_last();
    assert forall|k: int| 0 <= k < front.len() implies root_fits(#[trigger] front[k], state) by {
        assert(front[k] == roots[k]);
    }
    let valid = lemma_reachable(roots, state.multibodies, state.world);
    lemma_front_kept(roots, state.multibodies, valid);
    if distinct_roots(roots) {
        assert forall|i: int, j: int| 0 <= i < j < front.len() implies (
        #[trigger] front[i]).multibody != (#[trigger] front[j]).multibody by {
            assert(front[i] == roots[i] && front[j] == roots[j]);
        }
    }
    if disjoint_rows(state.multibodies, roots) {
        assert forall|i: int, j: int, row: int| 0 <= i < j < front.len() implies !(
        #[trigger] owns_row(state.multibodies, front[i], row) && #[trigger] owns_row(
            state.multibodies,
            front[j],
            row,
        )) by {
            assert(owns_row(state.multibodies, roots[i], row) == owns_row(
                state.multibodies,
                front[i],
                row,
            ));
            assert(owns_row(state.multibodies, roots[j], row) == owns_row(
                state.multibodies,
                front[j],
                row,
            ));
        }
    }
}

proof fn lemma_front_kept<W: MultibodyDynamics>(
    roots: Seq<MultibodyLinkId>,
    multibodies: Seq<Option<Multibody<W::Real>>>,
    valid: spec_fn(W) -> bool,
)
    requires
        roots.len() > 0,
        steps_keep(roots, valid),
        sizes_kept(valid, roots, multibodies),
    ensures
        steps_keep(roots.drop_last(), valid),
        sizes_kept(valid, roots.drop_last(), multibodies),
{
    let front = roots.drop_last();
    assert forall|k: int, before: W, after: W|
        0 <= k < front.len() && valid(before) && #[trigger] steps_to(
            front[k].multibody,
            before,
            after,
        ) implies valid(after) by {
        assert(steps_to(roots[k].multibody, before, after));
    }
    assert forall|k: int| 0 <= k < front.len() implies keeps_dimensions(
        valid,
        (#[trigger] front[k]).multibody,
        multibody_at(multibodies, front[k].multibody).dofs(),
    ) by {
        assert(front[k] == roots[k]);
    }
}

proof fn lemma_layout_fits<W: MultibodyDynamics>(
    link: MultibodyLinkId,
    a: SolverState<W>,
    b: SolverState<W>,
)
    requires
        same_layout(a, b),
        root_fits(link, a),
    ensures
        root_fits(link, b),
        multibody_at(b.multibodies, link.multibody).dofs() == multibody_at(
            a.multibodies,
            link.multibody,
        ).dofs(),
{
    assert(a.multibodies[link.multibody.0 as int] is Some);
}

proof fn lemma_prepared_frame<W: MultibodyDynamics>(
    valid: spec_fn(W) -> bool,
    roots: Seq<MultibodyLinkId>,
    dt: W::Real,
    pre: SolverState<W>,
    post: SolverState<W>,
)
    requires
        valid(pre.world),
        steps_keep(roots, valid),
        sizes_kept(valid, roots, pre.multibodies),
        roots_fit(roots, pre),
        roots_prepared(roots, dt, pre, post),
    ensures
        valid(post.world),
        same_outside_roots(roots, pre, post),
    decreases roots.len(),
{
    if roots.len() > 0 {
        let front = roots.drop_last();
        let n = roots.len() - 1;
        let mid = choose|mid: SolverState<W>|
            {
                &&& roots_prepared(front, dt, pre, mid)
                &&& #[trigger] root_prepared(roots.last(), dt, mid, post)
            };
        assert forall|k: int| 0 <= k < front.len() implies root_fits(#[trigger] front[k], pre) by {
            assert(front[k] == roots[k]);
        }
        lemma_front_kept(roots, pre.multibodies, valid);
        lemma_prepared_frame(valid, front, dt, pre, mid);
        assert(root_fits(roots[n], pre));
        lemma_layout_fits(roots[n], pre, mid);
        lemma_steps_keep_one(roots, n, valid);
        lemma_root_prepared(valid, roots[n], dt, mid, post);
        lemma_same_outside_push(roots, pre, mid, post);
    }
}

/// Preparing roots changes nothing but the world, the multibodies of the roots and the rows that
/// belong to them, whether or not roots share a multibody or rows.
pub proof fn law_prepared_frame<W: MultibodyDynamics>(
    roots: Seq<MultibodyLinkId>,
    dt: W::Real,
    pre: SolverState<W>,
    post: SolverState<W>,
)
    requires
        roots_keep_dimensions(roots, pre.multibodies, pre.world),
        roots_fit(roots, pre),
        roots_prepared(roots, dt, pre, post),
    ensures
        same_outside_roots(roots, pre, post),
        roots_fit(roots, post),
        roots_keep_dimensions(roots, post.multibodies, post.world),
{
    let valid = lemma_reachable(roots, pre.multibodies, pre.world);
    lemma_prepared_frame(valid, roots, dt, pre, post);
    lemma_same_layout_fits(valid, roots, pre, post);
}

proof fn lemma_integrated_frame<W: MultibodyDynamics>(
    valid: spec_fn(W) -> bool,
    roots: Seq<MultibodyLinkId>,
    dt: W::Real,
    is_last_substep: bool,
    pre: SolverState<W>,
    post: SolverState<W>,
)
    requires
        valid(pre.world),
        steps_keep(roots, valid),
        sizes_kept(valid, roots, pre.multibodies),
        roots_fit(roots, pre),
        roots_integrated(roots, dt, is_last_substep, pre, post),
    ensures
        valid(post.world),
        same_outside_roots(roots, pre, post),
        is_last_substep ==> post.increment == pre.increment,
    decreases roots.len(),
{
    if roots.len() > 0 {
        let front = roots.drop_last();
        let n = roots.len() - 1;
        let mid = choose|mid: SolverState<W>|
            {
                &&& roots_integrated(front, dt, is_last_substep, pre, mid)
                &&& #[trigger] root_integrated(roots.last(), dt, is_last_substep, mid, post)
            };
        assert forall|k: int| 0 <= k < front.len() implies root_fits(#[trigger] front[k], pre) by {
            assert(front[k] == roots[k]);
        }
        lemma_front_kept(roots, pre.multibodies, valid);
        lemma_integrated_frame(valid, front, dt, is_last_substep, pre, mid);
        assert(root_fits(roots[n], pre));
        lemma_layout_fits(roots[n], pre, mid);
        lemma_steps_keep_one(roots, n, valid);
        lemma_root_integrated(valid, roots[n], dt, is_last_substep, mid, post);
        lemma_same_outside_push(roots, pre, mid, post);
    }
}

/// A substep changes nothing but the world, the multibodies of the roots and the rows that belong
/// to them, whether or not roots share a multibody or rows. The last substep leaves the increment
/// alone.
pub proof fn law_integrated_frame<W: MultibodyDynamics>(
    roots: Seq<MultibodyLinkId>,
    dt: W::Real,
    is_last_substep: bool,
    pre: SolverState<W>,
    post: SolverState<W>,
)
    requires
        roots_keep_dimensions(roots, pre.multibodies, pre.world),
        roots_fit(roots, pre),
        roots_integrated(roots, dt, is_last_substep, pre, post),
    ensures
        same_outside_roots(roots, pre, post),
        is_last_substep ==> post.increment == pre.increment,
        roots_fit(roots, post),
        roots_keep_dimensions(roots, post.multibodies, post.world),
{
    let valid = lemma_reachable(roots, pre.multibodies, pre.world);
    lemma_integrated_frame(valid, roots, dt, is_last_substep, pre, post);
    lemma_same_layout_fits(valid, roots, pre, post);
}

/// The state between the last root and those before it, when roots have been prepared.
proof fn lemma_split_prepared<W: MultibodyDynamics>(
    roots: Seq<MultibodyLinkId>,
    dt: W::Real,
    pre: SolverState<W>,
    post: SolverState<W>,
) -> (mid: SolverState<W>)
    requires
        roots.len() > 0,
        roots_keep_dimensions(roots, pre.multibodies, pre.world),
        roots_fit(roots, pre),
        roots_prepared(roots, dt, pre, post),
    ensures
        roots_prepared(roots.drop_last(), dt, pre, mid),
        root_prepared(roots.last(), dt, mid, post),
        same_outside_roots(roots.drop_last(), pre, mid),
        root_fits(roots.last(), mid),
        same_outside(roots.last(), mid, post),
        mirrors_velocities(roots.last(), post),
        holds_increment(roots.last(), dt, post),
{
    let front = roots.drop_last();
    let n = roots.len() - 1;
    let mid = choose|mid: SolverState<W>|
        {
            &&& roots_prepared(front, dt, pre, mid)
            &&& #[trigger] root_prepared(roots.last(), dt, mid, post)
        };
    let valid = lemma_reachable(roots, pre.multibodies, pre.world);
    lemma_front_roots(roots, pre);
    lemma_front_kept(roots, pre.multibodies, valid);
    lemma_prepared_frame(valid, front, dt, pre, mid);
    assert(root_fits(roots[n], pre));
    lemma_layout_fits(roots[n], pre, mid);
    lemma_steps_keep_one(roots, n, valid);
    lemma_root_prepared(valid, roots[n], dt, mid, post);
    mid
}

/// The state between the last root and those before it, when roots have been integrated.
pub(crate) proof fn lemma_split_integrated<W: MultibodyDynamics>(
    roots: Seq<MultibodyLinkId>,
    dt: W::Real,
    is_last_substep: bool,
    pre: SolverState<W>,
    post: SolverState<W>,
) -> (mid: SolverState<W>)
    requires
        roots.len() > 0,
        roots_keep_dimensions(roots, pre.multibodies, pre.world),
        roots_fit(roots, pre),
        roots_integrated(roots, dt, is_last_substep, pre, post),
    ensures
        roots_keep_dimensions(roots.drop_last(), pre.multibodies, pre.world),
        roots_fit(roots.drop_last(), pre),
        distinct_roots(roots) ==> distinct_roots(roots.drop_last()),
        disjoint_rows(pre.multibodies, roots) ==> disjoint_rows(
            pre.multibodies,
            roots.drop_last(),
        ),
        roots_integrated(roots.drop_last(), dt, is_last_substep, pre, mid),
        root_integrated(roots.last(), dt, is_last_substep, mid, post),
        same_outside_roots(roots.drop_last(), pre, mid),
        root_fits(roots.last(), mid),
        same_outside(roots.last(), mid, post),
        mirrors_velocities(roots.last(), post),
        !is_last_substep ==> holds_increment(roots.last(), dt, post),
{
    let front = roots.drop_last();
    let n = roots.len() - 1;
    let mid = choose|mid: SolverState<W>|
        {
            &&& roots_integrated(front, dt, is_last_substep, pre, mid)
            &&& #[trigger] root_integrated(roots.last(), dt, is_last_substep, mid, post)
        };
    let valid = lemma_reachable(roots, pre.multibodies, pre.world);
    lemma_front_roots(roots, pre);
    lemma_front_kept(roots, pre.multibodies, valid);
    lemma_integrated_frame(valid, front, dt, is_last_substep, pre, mid);
    assert(root_fits(roots[n], pre));
    lemma_layout_fits(roots[n], pre, mid);
    lemma_steps_keep_one(roots, n, valid);
    lemma_root_integrated(valid, roots[n], dt, is_last_substep, mid, post);
    mid
}

/// After the roots have been prepared, each multibody finds its own velocities in its rows of the
/// solver velocities, and `dt` times its accelerations in those of the increment. Nothing else has
/// changed.
pub proof fn law_prepared_roots<W: MultibodyDynamics>(
    roots: Seq<MultibodyLinkId>,
    dt: W::Real,
    pre: SolverState<W>,
    post: SolverState<W>,
)
    requires
        roots_keep_dimensions(roots, pre.multibodies, pre.world),
        distinct_roots(roots),
        disjoint_rows(pre.multibodies, roots),
        roots_fit(roots, pre),
        roots_prepared(roots, dt, pre, post),
    ensures
        same_outside_roots(roots, pre, post),
        forall|k: int|
            #![trigger roots[k]]
            0 <= k < roots.len() ==> mirrors_velocities(roots[k], post) && holds_increment(
                roots[k],
                dt,
                post,
            ),
    decreases roots.len(),
{
    law_prepared_frame(roots, dt, pre, post);
    if roots.len() > 0 {
        let front = roots.drop_last();
        let n = roots.len() - 1;
        let mid = lemma_split_prepared(roots, dt, pre, post);
        lemma_front_roots(roots, pre);
        law_prepared_roots(front, dt, pre, mid);
        assert forall|k: int|
            #![trigger roots[k]]
            0 <= k < roots.len() implies mirrors_velocities(roots[k], post) && holds_increment(
            roots[k],
            dt,
            post,
        ) by {
            if k < n {
                assert(front[k] == roots[k]);
                lemma_other_root_kept(roots, k, dt, pre, mid, post);
            }
        }
    }
}

/// Whether the rows of the solver velocities that belong to a multibody follow what reconciliation
/// returned for it: they are the corrected velocities or, if there are none, what they were.
pub open spec fn rows_follow_correction<W: MultibodyDynamics>(
    link: MultibodyLinkId,
    dt: W::Real,
    pre: SolverState<W>,
    post: SolverState<W>,
) -> bool {
    let multibody = multibody_at(pre.multibodies, link.multibody);
    let base = multibody.solver_id as int;
    exists|
        world: W,
        entering: Multibody<W::Real>,
        increment: Vec<W::Real>,
        out: (W, Option<Vec<W::Real>>),
    |
        {
            &&& enters_substep(link, pre, entering, increment)
            &&& #[trigger] root_moved(link, dt, world, entering, increment, out)
            &&& rows(post.vels, base, multibody.dofs()) == (match out.1 {
                Some(velocities) => velocities@,
                None => rows(pre.vels, base, multibody.dofs()),
            })
        }
}

/// Whether reconciliation never corrects a multibody.
pub open spec fn never_corrects<W: MultibodyDynamics>(index: MultibodyIndex) -> bool {
    forall|
        world: W,
        multibody: Multibody<W::Real>,
        target: W::Momentum,
        out: (W, Option<Vec<W::Real>>),
    | #[trigger]
        call_ensures(W::reconcile_base_linear_momentum, (world, index, &multibody, target), out)
            ==> out.1 is None
}

/// After a substep, each multibody still finds its own velocities in its rows of the solver
/// velocities. These are the corrected velocities or, where reconciliation returned none, what
/// they were before. Unless it was the last substep, its rows of the increment are `dt` times its
/// accelerations. The last substep leaves the increment alone. Nothing else has changed.
pub proof fn law_integrated_roots<W: MultibodyDynamics>(
    roots: Seq<MultibodyLinkId>,
    dt: W::Real,
    is_last_substep: bool,
    pre: SolverState<W>,
    post: SolverState<W>,
)
    requires
        roots_keep_dimensions(roots, pre.multibodies, pre.world),
        distinct_roots(roots),
        disjoint_rows(pre.multibodies, roots),
        roots_fit(roots, pre),
        roots_integrated(roots, dt, is_last_substep, pre, post),
    ensures
        same_outside_roots(roots, pre, post),
        is_last_substep ==> post.increment == pre.increment,
        forall|k: int|
            #![trigger roots[k]]
            0 <= k < roots.len() ==> {
                let multibody = multibody_at(pre.multibodies, roots[k].multibody);
                let base = multibody.solver_id as int;
                &&& mirrors_velocities(roots[k], post)
                &&& rows_follow_correction(roots[k], dt, pre, post)
                &&& never_corrects::<W>(roots[k].multibody) ==> rows(
                    post.vels,
                    base,
                    multibody.dofs(),
                ) == rows(pre.vels, base, multibody.dofs())
                &&& !is_last_substep ==> holds_increment(roots[k], dt, post)
            },
    decreases roots.len(),
{
    law_integrated_frame(roots, dt, is_last_substep, pre, post);
    if roots.len() > 0 {
        let front = roots.drop_last();
        let n = roots.len() - 1;
        let mid = lemma_split_integrated(roots, dt, is_last_substep, pre, post);
        law_integrated_roots(front, dt, is_last_substep, pre, mid);
        assert forall|k: int|
            #![trigger roots[k]]
            0 <= k < roots.len() implies {
            let multibody = multibody_at(pre.multibodies, roots[k].multibody);
            let base = multibody.solver_id as int;
            &&& mirrors_velocities(roots[k], post)
            &&& rows_follow_correction(roots[k], dt, pre, post)
            &&& never_corrects::<W>(roots[k].multibody) ==> rows(
                post.vels,
                base,
                multibody.dofs(),
            ) == rows(pre.vels, base, multibody.dofs())
            &&& !is_last_substep ==> holds_increment(roots[k], dt, post)
        } by {
            if k < n {
                assert(front[k] == roots[k]);
                lemma_other_root_kept(roots, k, dt, pre, mid, post);
                lemma_follows_on(roots[k], dt, pre, mid, post);
            } else {
                let trace = lemma_root_trace(roots[n], dt, is_last_substep, mid, post);
                let initial = multibody_at(pre.multibodies, roots[n].multibody);
                let base = initial.solver_id as int;
                assert(root_fits(roots[n], pre));
                assert(pre.multibodies[roots[n].multibody.0 as int] is Some);
                lemma_entry_kept(roots, pre, mid, trace.entering, trace.increment);
                assert(rows(mid.vels, base, initial.dofs()) == trace.entering.velocities@);
                assert(root_moved(
                    roots[n],
                    dt,
                    mid.world,
                    trace.entering,
                    trace.increment,
                    trace.out,
                ));
                assert(rows(post.vels, base, initial.dofs()) == trace.last.velocities@);
                assert(rows_follow_correction(roots[n], dt, pre, post));
            }
        }
    }
}

proof fn lemma_follows_on<W: MultibodyDynamics>(
    link: MultibodyLinkId,
    dt: W::Real,
    pre: SolverState<W>,
    mid: SolverState<W>,
    post: SolverState<W>,
)
    requires
        rows_follow_correction(link, dt, pre, mid),
        ({
            let multibody = multibody_at(pre.multibodies, link.multibody);
            let base = multibody.solver_id as int;
            rows(post.vels, base, multibody.dofs()) == rows(mid.vels, base, multibody.dofs())
        }),
    ensures
        rows_follow_correction(link, dt, pre, post),
{
}

/// A multibody enters a substep in the same way after others, with rows of their own, have been
/// integrated.
pub(crate) proof fn lemma_entry_kept<W: MultibodyDynamics>(
    roots: Seq<MultibodyLinkId>,
    pre: SolverState<W>,
    mid: SolverState<W>,
    multibody: Multibody<W::Real>,
    increment: Vec<W::Real>,
)
    requires
        roots.len() > 0,
        distinct_roots(roots),
        disjoint_rows(pre.multibodies, roots),
        roots_fit(roots, pre),
        same_outside_roots(roots.drop_last(), pre, mid),
        enters_substep(roots.last(), mid, multibody, increment),
    ensures
        enters_substep(roots.last(), pre, multibody, increment),
{
    let n = roots.len() - 1;
    let link = roots[n];
    let front = roots.drop_last();
    let initial = multibody_at(pre.multibodies, link.multibody);
    let base = initial.solver_id as int;
    assert(root_fits(link, pre));
    assert forall|k: int| 0 <= k < front.len() implies (#[trigger] front[k]).multibody.0
        != link.multibody.0 by {
        assert(front[k] == roots[k]);
        assert(roots[k].multibody != roots[n].multibody);
    }
    assert(mid.multibodies[link.multibody.0 as int] == pre.multibodies[link.multibody.0 as int]);
    assert forall|d: int| 0 <= d < initial.dofs() implies !(#[trigger] row_is_owned(
        pre.multibodies,
        front,
        base + d,
    )) by {
        assert(owns_row(pre.multibodies, roots[n], base + d));
        if row_is_owned(pre.multibodies, front, base + d) {
            let k = choose|k: int|
                0 <= k < front.len() && #[trigger] owns_row(pre.multibodies, front[k], base + d);
            assert(owns_row(pre.multibodies, roots[k], base + d));
        }
    }
    assert forall|row: int| base <= row < base + initial.dofs() implies #[trigger] mid.vels[row]
        == pre.vels[row] by {
        assert(!row_is_owned(pre.multibodies, front, base + (row - base)));
    }
    assert forall|row: int|
        base <= row < base + initial.dofs() implies #[trigger] mid.increment[row]
        == pre.increment[row] by {
        assert(!row_is_owned(pre.multibodies, front, base + (row - base)));
    }
    assert(rows(mid.vels, base, initial.dofs()) == rows(pre.vels, base, initial.dofs()));
    assert(rows(mid.increment, base, initial.dofs()) == rows(
        pre.increment,
        base,
        initial.dofs(),
    ));
}

/// What the initialization of the solver leaves when no two roots lead to the same multibody.
/// The rows of the generic vectors are the degrees of freedom of the multibodies of the island, in
/// the order of the roots: each row belongs to one root and to no other. Each multibody finds its
/// own velocities and its increment there.
pub proof fn law_initialized_solver<W: MultibodyDynamics>(
    multibodies: MultibodyJointSet<W::Real>,
    island: Seq<RigidBodyHandle>,
    world: W,
    zero: W::Real,
    dt: W::Real,
    post: SolverState<W>,
)
    requires
        roots_keep_dimensions(
            solver_roots(multibodies, island),
            multibodies.multibodies@,
            world,
        ),
        links_resolve(multibodies, island),
        total_dofs(multibodies.multibodies@, solver_roots(multibodies, island)) <= u32::MAX,
        distinct_roots(solver_roots(multibodies, island)),
        roots_prepared(
            solver_roots(multibodies, island),
            dt,
            initial_state(world, multibodies, island, zero),
            post,
        ),
    ensures
        forall|k: int|
            #![trigger solver_roots(multibodies, island)[k]]
            0 <= k < solver_roots(multibodies, island).len() ==> multibody_at(
                post.multibodies,
                solver_roots(multibodies, island)[k].multibody,
            ).solver_id == total_dofs(
                multibodies.multibodies@,
                solver_roots(multibodies, island).take(k),
            ),
        disjoint_rows(post.multibodies, solver_roots(multibodies, island)),
        forall|row: int|
            #[trigger] row_is_owned(
                post.multibodies,
                solver_roots(multibodies, island),
                row,
            ) <==> 0 <= row < post.vels.len(),
        post.increment.len() == post.vels.len(),
        forall|k: int|
            #![trigger solver_roots(multibodies, island)[k]]
            0 <= k < solver_roots(multibodies, island).len() ==> mirrors_velocities(
                solver_roots(multibodies, island)[k],
                post,
            ) && holds_increment(solver_roots(multibodies, island)[k], dt, post),
{
    let roots = solver_roots(multibodies, island);
    let pre = initial_state(world, multibodies, island, zero);
    lemma_roots_resolve(multibodies, island);
    lemma_with_solver_ids(multibodies.multibodies@, roots);
    law_solver_ids_tile(multibodies.multibodies@, roots);
    assert forall|k: int| 0 <= k < roots.len() implies root_fits(#[trigger] roots[k], pre) by {
        assert(contains_multibody(multibodies.multibodies@, roots[k].multibody));
    }
    let valid = lemma_reachable(roots, multibodies.multibodies@, world);
    assert forall|k: int| 0 <= k < roots.len() implies keeps_dimensions(
        valid,
        (#[trigger] roots[k]).multibody,
        multibody_at(pre.multibodies, roots[k].multibody).dofs(),
    ) by {
        assert(contains_multibody(multibodies.multibodies@, roots[k].multibody));
        assert(multibodies.multibodies@[roots[k].multibody.0 as int] is Some);
    }
    assert(sizes_kept(valid, roots, pre.multibodies));
    law_prepared_roots(roots, dt, pre, post);
    assert forall|k: int|
        #![trigger roots[k]]
        0 <= k < roots.len() implies multibody_at(
        post.multibodies,
        roots[k].multibody,
    ).solver_id == total_dofs(multibodies.multibodies@, roots.take(k)) by {
        assert(root_fits(roots[k], pre));
        assert(pre.multibodies[roots[k].multibody.0 as int] is Some);
    }
    assert forall|k: int, row: int| 0 <= k < roots.len() implies #[trigger] owns_row(
        post.multibodies,
        roots[k],
        row,
    ) == owns_row(pre.multibodies, roots[k], row) by {
        assert(root_fits(roots[k], pre));
        assert(pre.multibodies[roots[k].multibody.0 as int] is Some);
    }
    assert forall|row: int|
        #[trigger] row_is_owned(post.multibodies, roots, row) <==> 0 <= row
            < post.vels.len() by {
        assert(row_is_owned(pre.multibodies, roots, row) <==> 0 <= row < pre.vels.len());
        if row_is_owned(pre.multibodies, roots, row) {
            let k = choose|k: int|
                0 <= k < roots.len() && #[trigger] owns_row(pre.multibodies, roots[k], row);
            assert(owns_row(post.multibodies, roots[k], row));
        }
        if row_is_owned(post.multibodies, roots, row) {
            let k = choose|k: int|
                0 <= k < roots.len() && #[trigger] owns_row(post.multibodies, roots[k], row);
            assert(owns_row(pre.multibodies, roots[k], row));
        }
    }
}

/// Everything that comes up while one multibody is integrated over a substep.
pub struct RootTrace<W: MultibodyDynamics> {
    /// The multibody once it has taken its rows of the solver velocities for its own.
    pub entering: Multibody<W::Real>,
    /// Its rows of the increment.
    pub increment: Vec<W::Real>,
    /// The momentum that the ledger says it owes.
    pub target: W::Momentum,
    /// The world after the positions have been integrated.
    pub integrated: W,
    /// The world after forward kinematics.
    pub posed: W,
    /// The world after the rigid bodies have been written.
    pub written: W,
    /// The world after the link velocities have been derived.
    pub moved: W,
    /// What reconciliation returned.
    pub out: (W, Option<Vec<W::Real>>),
    /// The world after the mass matrix has been recomputed.
    pub weighed: W,
    /// What the recomputation of the accelerations returned, unless this was the last substep.
    pub refreshed: (W, Vec<W::Real>),
    /// The multibody at the end.
    pub last: Multibody<W::Real>,
}

/// Whether a trace tells how the multibody of one root was integrated from `pre` to `post`.
pub open spec fn traces<W: MultibodyDynamics>(
    trace: RootTrace<W>,
    link: MultibodyLinkId,
    dt: W::Real,
    is_last_substep: bool,
    pre: SolverState<W>,
    post: SolverState<W>,
) -> bool {
    let index = link.multibody;
    let base = multibody_at(pre.multibodies, index).solver_id as int;
    let reconciled = corrected(trace.entering, trace.out.1);
    &&& enters_substep(link, pre, trace.entering, trace.increment)
    &&& momentum_ledger(pre.world, index, trace.entering, trace.increment, dt, trace.target)
    &&& call_ensures(W::integrate, (pre.world, index, &trace.entering, dt), trace.integrated)
    &&& call_ensures(
        W::forward_kinematics,
        (trace.integrated, index, &trace.entering, false),
        trace.posed,
    )
    &&& call_ensures(
        W::update_rigid_bodies_internal,
        (trace.posed, index, &trace.entering, true, true, false),
        trace.written,
    )
    &&& call_ensures(W::update_velocities, (trace.written, index, &trace.entering), trace.moved)
    &&& call_ensures(
        W::reconcile_base_linear_momentum,
        (trace.moved, index, &trace.entering, trace.target),
        trace.out,
    )
    &&& post.vels == (match trace.out.1 {
        Some(velocities) => with_rows(pre.vels, base, velocities@),
        None => pre.vels,
    })
    &&& call_ensures(
        W::update_mass_matrix,
        (trace.out.0, index, &reconciled, dt),
        trace.weighed,
    )
    &&& if is_last_substep {
        &&& post.world == trace.weighed
        &&& trace.last == reconciled
        &&& post.increment == pre.increment
    } else {
        &&& call_ensures(
            W::update_acceleration,
            (trace.weighed, index, &reconciled, dt),
            trace.refreshed,
        )
        &&& post.world == trace.refreshed.0
        &&& trace.last == (Multibody { accelerations: trace.refreshed.1, ..reconciled })
        &&& scaled_rows::<W>(
            pre.increment,
            base,
            dt,
            trace.refreshed.1@,
            post.increment,
        )
    }
    &&& post.multibodies == pre.multibodies.update(index.0 as int, Some(trace.last))
}

/// The integration of a multibody has a trace.
pub(crate) proof fn lemma_root_trace<W: MultibodyDynamics>(
    link: MultibodyLinkId,
    dt: W::Real,
    is_last_substep: bool,
    pre: SolverState<W>,
    post: SolverState<W>,
) -> (trace: RootTrace<W>)
    requires
        root_integrated(link, dt, is_last_substep, pre, post),
    ensures
        traces(trace, link, dt, is_last_substep, pre, post),
{
    let index = link.multibody;
    let base = multibody_at(pre.multibodies, index).solver_id as int;
    let (entering, increment, out, last) = choose|
        entering: Multibody<W::Real>,
        increment: Vec<W::Real>,
        out: (W, Option<Vec<W::Real>>),
        last: Multibody<W::Real>,
    |
        {
            &&& enters_substep(link, pre, entering, increment)
            &&& #[trigger] root_moved(link, dt, pre.world, entering, increment, out)
            &&& post.vels == (match out.1 {
                Some(velocities) => with_rows(pre.vels, base, velocities@),
                None => pre.vels,
            })
            &&& #[trigger] root_refreshed(
                link,
                dt,
                is_last_substep,
                out.0,
                corrected(entering, out.1),
                pre.increment,
                post.world,
                last,
                post.increment,
            )
            &&& post.multibodies == pre.multibodies.update(index.0 as int, Some(last))
        };
    let (target, integrated, posed, written, moved) = choose|
        target: W::Momentum,
        integrated: W,
        posed: W,
        written: W,
        moved: W,
    |
        {
            &&& momentum_ledger(pre.world, index, entering, increment, dt, target)
            &&& #[trigger] call_ensures(
                W::integrate,
                (pre.world, index, &entering, dt),
                integrated,
            )
            &&& #[trigger] call_ensures(
                W::forward_kinematics,
                (integrated, index, &entering, false),
                posed,
            )
            &&& #[trigger] call_ensures(
                W::update_rigid_bodies_internal,
                (posed, index, &entering, true, true, false),
                written,
            )
            &&& #[trigger] call_ensures(W::update_velocities, (written, index, &entering), moved)
            &&& #[trigger] call_ensures(
                W::reconcile_base_linear_momentum,
                (moved, index, &entering, target),
                out,
            )
        };
    let reconciled = corrected(entering, out.1);
    let refreshed = (post.world, last.accelerations);
    let weighed = choose|weighed: W|
        {
            &&& #[trigger] call_ensures(
                W::update_mass_matrix,
                (out.0, index, &reconciled, dt),
                weighed,
            )
            &&& if is_last_substep {
                &&& post.world == weighed
                &&& last == reconciled
                &&& post.increment == pre.increment
            } else {
                &&& call_ensures(
                    W::update_acceleration,
                    (weighed, index, &reconciled, dt),
                    (post.world, last.accelerations),
                )
                &&& last == (Multibody { accelerations: last.accelerations, ..reconciled })
                &&& scaled_rows::<W>(
                    pre.increment,
                    reconciled.solver_id as int,
                    dt,
                    last.accelerations@,
                    post.increment,
                )
            }
        };
    RootTrace {
        entering,
        increment,
        target,
        integrated,
        posed,
        written,
        moved,
        out,
        weighed,
        refreshed,
        last,
    }
}

/// The worlds of a trace follow one another by steps of the dynamics.
pub(crate) proof fn lemma_trace_steps<W: MultibodyDynamics>(
    trace: RootTrace<W>,
    link: MultibodyLinkId,
    dt: W::Real,
    is_last_substep: bool,
    pre: SolverState<W>,
    post: SolverState<W>,
)
    requires
        traces(trace, link, dt, is_last_substep, pre, post),
    ensures
        steps_to(link.multibody, pre.world, trace.integrated),
        steps_to(link.multibody, trace.integrated, trace.posed),
        steps_to(link.multibody, trace.posed, trace.written),
        steps_to(link.multibody, trace.written, trace.moved),
        steps_to(link.multibody, trace.moved, trace.out.0),
        steps_to(link.multibody, trace.out.0, trace.weighed),
        if is_last_substep {
            post.world == trace.weighed
        } else {
            steps_to(link.multibody, trace.weighed, post.world)
        },
{
}

/// What the steps of a multibody keep holds of every world of a trace.
pub(crate) proof fn lemma_trace_kept<W: MultibodyDynamics>(
    trace: RootTrace<W>,
    link: MultibodyLinkId,
    dt: W::Real,
    is_last_substep: bool,
    pre: SolverState<W>,
    post: SolverState<W>,
    inv: spec_fn(W) -> bool,
)
    requires
        traces(trace, link, dt, is_last_substep, pre, post),
        steps_keep(seq![link], inv),
        inv(pre.world),
    ensures
        inv(trace.integrated),
        inv(trace.posed),
        inv(trace.written),
        inv(trace.moved),
        inv(trace.out.0),
        inv(trace.weighed),
        inv(post.world),
{
    let one = seq![link];
    lemma_trace_steps(trace, link, dt, is_last_substep, pre, post);
    lemma_step_kept(one, 0, inv, pre.world, trace.integrated);
    lemma_step_kept(one, 0, inv, trace.integrated, trace.posed);
    lemma_step_kept(one, 0, inv, trace.posed, trace.written);
    lemma_step_kept(one, 0, inv, trace.written, trace.moved);
    lemma_step_kept(one, 0, inv, trace.moved, trace.out.0);
    lemma_step_kept(one, 0, inv, trace.out.0, trace.weighed);
    if !is_last_substep {
        lemma_step_kept(one, 0, inv, trace.weighed, post.world);
    }
}

/// What the steps of the multibodies keep still holds of the world after a substep.
pub(crate) proof fn lemma_roots_keep<W: MultibodyDynamics>(
    roots: Seq<MultibodyLinkId>,
    dt: W::Real,
    is_last_substep: bool,
    pre: SolverState<W>,
    post: SolverState<W>,
    inv: spec_fn(W) -> bool,
)
    requires
        roots_integrated(roots, dt, is_last_substep, pre, post),
        steps_keep(roots, inv),
        inv(pre.world),
    ensures
        inv(post.world),
    decreases roots.len(),
{
    if roots.len() > 0 {
        let front = roots.drop_last();
        let n = roots.len() - 1;
        let mid = choose|mid: SolverState<W>|
            {
                &&& roots_integrated(front, dt, is_last_substep, pre, mid)
                &&& #[trigger] root_integrated(roots.last(), dt, is_last_substep, mid, post)
            };
        assert forall|k: int, before: W, after: W|
            0 <= k < front.len() && inv(before) && #[trigger] steps_to(
                front[k].multibody,
                before,
                after,
            ) implies inv(after) by {
            assert(steps_to(roots[k].multibody, before, after));
        }
        lemma_roots_keep(front, dt, is_last_substep, pre, mid, inv);
        let trace = lemma_root_trace(roots[n], dt, is_last_substep, mid, post);
        lemma_steps_keep_one(roots, n, inv);
        lemma_trace_kept(trace, roots[n], dt, is_last_substep, mid, post, inv);
    }
}

} // verus!
