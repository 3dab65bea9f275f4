//! The solver on a world of whole numbers, where every value can be told exactly. The world keeps
//! a trace of the steps that were asked of it.

use multibody_solver::buffers::{
    align, align_to_simd, each_mut, read_rows, refill, resize, write_rows,
};
use multibody_solver::contact_constraints_set::{
    ContactAssembly, ContactConstraintModel, ContactConstraintsSet, ManifoldRef, ManifoldStore,
    SolverContactGraph,
};
use multibody_solver::dynamics::{balance, momentum_target, MultibodyDynamics};
use multibody_solver::joint_constraints_set::{
    restore_impulses, save_impulses, AnyJointConstraint, AnyJointConstraintMut, Builder,
    Constraint, GenericJointConstraint, GenericJointConstraintBuilder, JointAssembly,
    JointConstraintModel, JointConstraintsSet, JointGraphEdge,
};
use multibody_solver::multibody::{
    IntegrationParameters, Multibody, MultibodyIndex, MultibodyJointSet, MultibodyLinkId,
    RigidBodyHandle,
};
use multibody_solver::velocity_solver::{assign_solver_ids, write_scaled_rows, VelocitySolver};
use std::cell::RefCell;

const EMPTY_BODY: i64 = -1;
const NO_GYRO: u8 = 7;

/// A world whose momenta are sums of velocities.
struct World {
    trace: RefCell<Vec<String>>,
    /// The external force on every multibody.
    force: i64,
    /// Whether reconciliation corrects the velocities.
    corrects: bool,
    /// A multibody whose base is fixed, so that nothing about its momentum can be corrected.
    fixed: Option<usize>,
    /// How many constraints the update of a builder leaves in the buffer, if that changes.
    constraints_after_update: Option<usize>,
}

impl World {
    fn new() -> Self {
        World {
            trace: RefCell::new(Vec::new()),
            force: 0,
            corrects: true,
            fixed: None,
            constraints_after_update: None,
        }
    }

    fn log(&self, line: String) {
        self.trace.borrow_mut().push(line);
    }

    fn lines(&self) -> Vec<String> {
        self.trace.borrow().clone()
    }
}

impl MultibodyDynamics for World {
    type Real = i64;
    type Force = i64;
    type Momentum = i64;
    type SolverBody = i64;
    type SolverVel = i64;
    type GyroParams = u8;

    fn zero() -> i64 {
        0
    }

    fn product(a: i64, b: i64) -> i64 {
        a * b
    }

    fn momentum_sum(a: i64, b: i64) -> i64 {
        a + b
    }

    fn momentum_difference(a: i64, b: i64) -> i64 {
        a - b
    }

    fn impulse_of(force: i64, dt: i64) -> i64 {
        force * dt
    }

    fn empty_solver_body() -> i64 {
        EMPTY_BODY
    }

    fn zero_solver_vel() -> i64 {
        0
    }

    fn default_gyro_params() -> u8 {
        NO_GYRO
    }

    fn update_velocities(self, index: MultibodyIndex, multibody: &Multibody<i64>) -> Self {
        self.log(format!("velocities {} {:?}", index.0, multibody.velocities));
        self
    }

    fn update_mass_matrix(self, index: MultibodyIndex, _: &Multibody<i64>, dt: i64) -> Self {
        self.log(format!("mass {} {}", index.0, dt));
        self
    }

    fn update_acceleration(
        self,
        index: MultibodyIndex,
        multibody: &Multibody<i64>,
        dt: i64,
    ) -> (Self, Vec<i64>) {
        self.log(format!("acceleration {} {}", index.0, dt));
        let first = 10 * (index.0 as i64 + 1);
        let accelerations = (0..multibody.velocities.len() as i64).map(|d| first + d).collect();
        (self, accelerations)
    }

    fn linear_momentum(&self, _: MultibodyIndex, multibody: &Multibody<i64>) -> i64 {
        multibody.velocities.iter().sum()
    }

    fn map_momentum(&self, _: MultibodyIndex, _: &Multibody<i64>, increment: &Vec<i64>) -> i64 {
        increment.iter().sum()
    }

    fn total_external_force(&self, _: MultibodyIndex, _: &Multibody<i64>) -> i64 {
        self.force
    }

    fn integrate(self, index: MultibodyIndex, multibody: &Multibody<i64>, dt: i64) -> Self {
        self.log(format!("integrate {} {:?} {}", index.0, multibody.velocities, dt));
        self
    }

    fn forward_kinematics(
        self,
        index: MultibodyIndex,
        _: &Multibody<i64>,
        read_root_pose: bool,
    ) -> Self {
        self.log(format!("kinematics {} {}", index.0, read_root_pose));
        self
    }

    fn update_rigid_bodies_internal(
        self,
        index: MultibodyIndex,
        _: &Multibody<i64>,
        update_mass_properties: bool,
        update_next_positions_only: bool,
        change_tracking: bool,
    ) -> Self {
        self.log(format!(
            "bodies {} {} {} {}",
            index.0, update_mass_properties, update_next_positions_only, change_tracking
        ));
        self
    }

    fn reconcile_base_linear_momentum(
        self,
        index: MultibodyIndex,
        multibody: &Multibody<i64>,
        target: i64,
    ) -> (Self, Option<Vec<i64>>) {
        self.log(format!("reconcile {} {}", index.0, target));
        if !self.corrects || self.fixed == Some(index.0) {
            return (self, None);
        }
        let mut velocities = multibody.velocities.clone();
        let momentum: i64 = velocities.iter().sum();
        velocities[0] += target - momentum;
        (self, Some(velocities))
    }
}

fn link(multibody: usize, id: usize) -> MultibodyLinkId {
    MultibodyLinkId { multibody: MultibodyIndex(multibody), id }
}

fn multibody(root_is_dynamic: bool, velocities: &[i64]) -> Option<Multibody<i64>> {
    Some(Multibody {
        root_is_dynamic,
        solver_id: 99,
        velocities: velocities.to_vec(),
        accelerations: vec![0; velocities.len()],
    })
}

/// Multibody 0 has a root that moves, multibody 2 one that is fixed. The slot between them is
/// empty. Bodies 0 and 1 are the links of the first, bodies 3 and 4 those of the second after its
/// root, and body 2 is free.
fn multibodies() -> MultibodyJointSet<i64> {
    MultibodyJointSet {
        rigid_body_links: vec![
            Some(link(0, 0)),
            Some(link(0, 1)),
            None,
            Some(link(2, 1)),
            Some(link(2, 2)),
        ],
        multibodies: vec![multibody(true, &[1, 2, 3]), None, multibody(false, &[4, 5])],
    }
}

fn handles(bodies: &[usize]) -> Vec<RigidBodyHandle> {
    bodies.iter().map(|body| RigidBodyHandle(*body)).collect()
}

fn solver() -> VelocitySolver<World> {
    VelocitySolver {
        solver_bodies: Vec::new(),
        solver_vels_increment: Vec::new(),
        solver_gyro: Vec::new(),
        generic_solver_vels: Vec::new(),
        generic_solver_vels_increment: Vec::new(),
        multibody_roots: Vec::new(),
    }
}

fn at(set: &MultibodyJointSet<i64>, index: usize) -> &Multibody<i64> {
    set.multibodies[index].as_ref().unwrap()
}

#[test]
fn lengths_are_rounded_up_to_whole_groups() {
    assert_eq!(align(0, 4), 0);
    assert_eq!(align(1, 4), 4);
    assert_eq!(align(4, 4), 4);
    assert_eq!(align(5, 4), 8);
    assert_eq!(align(7, 1), 7);
    assert_eq!(align(usize::MAX, 1), usize::MAX);
    assert_eq!(align(usize::MAX - 3, 4), usize::MAX - 3);
}

#[test]
fn simd_groups_have_the_width_of_the_math_library() {
    assert_eq!(align_to_simd(1), parry3d::math::SIMD_WIDTH);
    assert_eq!(align_to_simd(0), 0);
    assert_eq!(align_to_simd(1), 4);
    assert_eq!(align_to_simd(9), 12);
}

#[test]
fn resizing_keeps_what_both_lengths_have() {
    let mut buffer = vec![1, 2, 3];
    resize(&mut buffer, 5, 9);
    assert_eq!(buffer, vec![1, 2, 3, 9, 9]);
    resize(&mut buffer, 2, 8);
    assert_eq!(buffer, vec![1, 2]);
    resize(&mut buffer, 2, 7);
    assert_eq!(buffer, vec![1, 2]);
}

#[test]
fn refilling_keeps_nothing() {
    let mut buffer = vec![1, 2, 3];
    refill(&mut buffer, 2, 9);
    assert_eq!(buffer, vec![9, 9]);
    refill(&mut buffer, 0, 9);
    assert!(buffer.is_empty());
}

#[test]
fn rows_are_read_and_written_in_place() {
    let mut vector = vec![0, 1, 2, 3, 4];
    assert_eq!(read_rows(&vector, 1, 3), vec![1, 2, 3]);
    assert!(read_rows(&vector, 5, 0).is_empty());
    write_rows(&mut vector, 3, &vec![8, 9]);
    assert_eq!(vector, vec![0, 1, 2, 8, 9]);
    write_scaled_rows::<World>(&mut vector, 1, 3, &vec![5, -6]);
    assert_eq!(vector, vec![0, 15, -18, 8, 9]);
}

#[test]
fn each_element_can_be_changed_in_place() {
    let mut buffer = vec![1, 2, 3];
    for (i, element) in each_mut(&mut buffer).into_iter().enumerate() {
        *element += 10 * i;
    }
    assert_eq!(buffer, vec![1, 12, 23]);
    let mut nothing: Vec<u8> = Vec::new();
    assert!(each_mut(&mut nothing).is_empty());
}

#[test]
fn bodies_resolve_to_links_and_multibodies() {
    let mut set = multibodies();
    assert_eq!(set.rigid_body_link(RigidBodyHandle(1)), Some(&link(0, 1)));
    assert_eq!(set.rigid_body_link(RigidBodyHandle(2)), None);
    assert_eq!(set.rigid_body_link(RigidBodyHandle(5)), None);
    assert!(set.get_multibody_mut_internal(MultibodyIndex(1)).is_none());
    assert!(set.get_multibody_mut_internal(MultibodyIndex(3)).is_none());
    let found = set.get_multibody_mut_internal(MultibodyIndex(2)).unwrap();
    assert_eq!(found.ndofs(), 2);
    found.solver_id = 6;
    assert_eq!(at(&set, 2).solver_id, 6);
    assert_eq!(at(&set, 0).solver_id, 99);
}

#[test]
fn solver_ids_follow_the_order_of_the_island() {
    let mut set = multibodies();
    let (roots, num_dofs) = assign_solver_ids(&mut set, &handles(&[4, 3, 2, 1, 0]));
    assert_eq!(roots, vec![link(2, 1), link(0, 0)]);
    assert_eq!(num_dofs, 5);
    assert_eq!(at(&set, 2).solver_id, 0);
    assert_eq!(at(&set, 0).solver_id, 2);
}

#[test]
fn a_link_after_a_moving_root_is_no_root() {
    let mut set = multibodies();
    let (roots, num_dofs) = assign_solver_ids(&mut set, &handles(&[1, 4]));
    assert!(roots.is_empty());
    assert_eq!(num_dofs, 0);
    assert_eq!(at(&set, 0).solver_id, 99);
}

#[test]
fn both_links_of_a_fixed_root_count() {
    let mut set = multibodies();
    set.rigid_body_links[2] = Some(link(2, 0));
    let (roots, num_dofs) = assign_solver_ids(&mut set, &handles(&[2, 3]));
    assert_eq!(roots, vec![link(2, 0), link(2, 1)]);
    assert_eq!(num_dofs, 4);
    assert_eq!(at(&set, 2).solver_id, 2);
}

#[test]
fn initialization_lays_the_multibodies_out() {
    let mut set = multibodies();
    let mut solver = solver();
    let params = IntegrationParameters { dt: 3 };
    solver.init_solver_buffers_and_multibodies(
        &params,
        &handles(&[0, 1, 2, 3, 4]),
        World::new(),
        &mut set,
    );
    assert_eq!(solver.multibody_roots, vec![link(0, 0), link(2, 1)]);
    assert_eq!(solver.solver_bodies, vec![EMPTY_BODY; 8]);
    assert_eq!(solver.solver_vels_increment, vec![0; 8]);
    assert_eq!(solver.solver_gyro, vec![NO_GYRO; 8]);
    assert_eq!(at(&set, 0).solver_id, 0);
    assert_eq!(at(&set, 2).solver_id, 3);
    assert_eq!(at(&set, 0).accelerations, vec![10, 11, 12]);
    assert_eq!(at(&set, 2).accelerations, vec![30, 31]);
    assert_eq!(solver.generic_solver_vels, vec![1, 2, 3, 4, 5]);
    assert_eq!(solver.generic_solver_vels_increment, vec![30, 33, 36, 90, 93]);
}

#[test]
fn initialization_keeps_nothing_of_the_step_before() {
    let mut set = multibodies();
    let mut solver = solver();
    solver.solver_bodies = vec![5; 20];
    solver.solver_vels_increment = vec![5; 20];
    solver.solver_gyro = vec![5; 20];
    solver.generic_solver_vels = vec![5; 20];
    solver.generic_solver_vels_increment = vec![5; 20];
    solver.multibody_roots = vec![link(7, 7)];
    let params = IntegrationParameters { dt: 1 };
    let world = solver.init_solver_buffers_and_multibodies(
        &params,
        &handles(&[2]),
        World::new(),
        &mut set,
    );
    assert_eq!(solver.solver_bodies, vec![EMPTY_BODY; 4]);
    assert_eq!(solver.solver_vels_increment, vec![0; 4]);
    assert_eq!(solver.solver_gyro, vec![NO_GYRO; 4]);
    assert!(solver.generic_solver_vels.is_empty());
    assert!(solver.generic_solver_vels_increment.is_empty());
    assert!(solver.multibody_roots.is_empty());
    assert!(world.lines().is_empty());
}

#[test]
fn an_empty_island_needs_no_buffers() {
    let mut set = multibodies();
    let mut solver = solver();
    let params = IntegrationParameters { dt: 1 };
    solver.init_solver_buffers_and_multibodies(&params, &[], World::new(), &mut set);
    assert!(solver.solver_bodies.is_empty());
    assert!(solver.solver_gyro.is_empty());
    assert!(solver.multibody_roots.is_empty());
}

#[test]
fn initialization_asks_for_its_steps_in_order() {
    let mut set = multibodies();
    let mut solver = solver();
    let params = IntegrationParameters { dt: 3 };
    let world = solver.init_solver_buffers_and_multibodies(
        &params,
        &handles(&[3, 0]),
        World::new(),
        &mut set,
    );
    assert_eq!(
        world.lines(),
        vec![
            "velocities 2 [4, 5]",
            "mass 2 3",
            "acceleration 2 3",
            "velocities 0 [1, 2, 3]",
            "mass 0 3",
            "acceleration 0 3",
        ]
    );
}

/// A solver and multibodies that were initialized for the multibodies 0 and 2.
fn initialized(
    world: World,
    dt: i64,
) -> (VelocitySolver<World>, MultibodyJointSet<i64>, World) {
    let mut set = multibodies();
    let mut solver = solver();
    let params = IntegrationParameters { dt };
    let world = solver.init_solver_buffers_and_multibodies(
        &params,
        &handles(&[0, 3]),
        world,
        &mut set,
    );
    world.trace.borrow_mut().clear();
    (solver, set, world)
}

#[test]
fn a_substep_asks_for_its_steps_in_order() {
    let (mut solver, mut set, mut world) = initialized(World::new(), 2);
    world.force = 7;
    solver.multibody_roots = vec![link(2, 1)];
    solver.generic_solver_vels = vec![1, 1, 1, 100, 50];
    let params = IntegrationParameters { dt: 2 };
    let world = solver.integrate_multibody_positions(&params, false, world, &mut set);
    // The velocities carry 150, of which the increment carries 60 + 62, and the force adds 14.
    assert_eq!(
        world.lines(),
        vec![
            "integrate 2 [100, 50] 2",
            "kinematics 2 false",
            "bodies 2 true true false",
            "velocities 2 [100, 50]",
            "reconcile 2 42",
            "mass 2 2",
            "acceleration 2 2",
        ]
    );
    assert_eq!(at(&set, 2).velocities, vec![-8, 50]);
    assert_eq!(solver.generic_solver_vels, vec![1, 1, 1, -8, 50]);
}

#[test]
fn a_correction_reaches_the_solver_velocities() {
    let (mut solver, mut set, world) = initialized(World::new(), 1);
    let params = IntegrationParameters { dt: 1 };
    solver.generic_solver_vels = vec![20, 20, 20, 40, 40];
    solver.integrate_multibody_positions(&params, false, world, &mut set);
    assert_eq!(at(&set, 0).velocities, vec![20 - (10 + 11 + 12), 20, 20]);
    assert_eq!(at(&set, 2).velocities, vec![40 - (30 + 31), 40]);
    assert_eq!(solver.generic_solver_vels, vec![-13, 20, 20, -21, 40]);
}

#[test]
fn without_a_correction_the_solver_velocities_stay() {
    let mut world = World::new();
    world.corrects = false;
    let (mut solver, mut set, world) = initialized(world, 1);
    let params = IntegrationParameters { dt: 1 };
    solver.generic_solver_vels = vec![20, 21, 22, 40, 41];
    solver.integrate_multibody_positions(&params, false, world, &mut set);
    assert_eq!(solver.generic_solver_vels, vec![20, 21, 22, 40, 41]);
    assert_eq!(at(&set, 0).velocities, vec![20, 21, 22]);
    assert_eq!(at(&set, 2).velocities, vec![40, 41]);
}

#[test]
fn the_increment_is_refreshed_but_on_the_last_substep() {
    let (mut solver, mut set, world) = initialized(World::new(), 1);
    let params = IntegrationParameters { dt: 5 };
    let world = solver.integrate_multibody_positions(&params, false, world, &mut set);
    assert_eq!(solver.generic_solver_vels_increment, vec![50, 55, 60, 150, 155]);

    solver.generic_solver_vels_increment = vec![9; 5];
    set.multibodies[0].as_mut().unwrap().accelerations = vec![8; 3];
    world.trace.borrow_mut().clear();
    let world = solver.integrate_multibody_positions(&params, true, world, &mut set);
    assert_eq!(solver.generic_solver_vels_increment, vec![9; 5]);
    assert_eq!(at(&set, 0).accelerations, vec![8; 3]);
    // The mass matrix is brought up to date all the same.
    assert!(world.lines().contains(&"mass 0 5".to_string()));
    assert!(!world.lines().contains(&"acceleration 0 5".to_string()));
}

#[test]
fn a_substep_leaves_everything_else_alone() {
    let (mut solver, mut set, world) = initialized(World::new(), 1);
    solver.multibody_roots = vec![link(2, 1)];
    solver.solver_bodies = vec![3; 4];
    solver.solver_vels_increment = vec![4; 4];
    solver.solver_gyro = vec![5; 4];
    let params = IntegrationParameters { dt: 1 };
    solver.integrate_multibody_positions(&params, false, world, &mut set);
    assert_eq!(solver.solver_bodies, vec![3; 4]);
    assert_eq!(solver.solver_vels_increment, vec![4; 4]);
    assert_eq!(solver.solver_gyro, vec![5; 4]);
    assert_eq!(solver.multibody_roots, vec![link(2, 1)]);
    assert_eq!(at(&set, 0).velocities, vec![1, 2, 3]);
    assert_eq!(at(&set, 0).accelerations, vec![10, 11, 12]);
    assert_eq!(solver.generic_solver_vels[0..3], [1, 2, 3]);
    assert_eq!(solver.generic_solver_vels_increment[0..3], [10, 11, 12]);
    assert!(set.multibodies[1].is_none());
}

#[test]
fn momentum_changes_by_external_impulses_alone() {
    let mut world = World::new();
    world.force = -3;
    let (mut solver, mut set, mut world) = initialized(world, 2);
    let params = IntegrationParameters { dt: 2 };
    for substep in 0..6 {
        for (vel, gain) in
            solver.generic_solver_vels.iter_mut().zip(&solver.generic_solver_vels_increment)
        {
            *vel += gain;
        }
        // An impulse inside the multibody moves momentum around and carries none.
        solver.generic_solver_vels[1] += 1000;
        solver.generic_solver_vels[2] -= 1000;
        world = solver.integrate_multibody_positions(&params, substep == 5, world, &mut set);
        let momentum: i64 = at(&set, 0).velocities.iter().sum();
        assert_eq!(momentum, 6 - 3 * 2 * (substep + 1));
        let momentum: i64 = at(&set, 2).velocities.iter().sum();
        assert_eq!(momentum, 9 - 3 * 2 * (substep + 1));
    }
}

#[test]
fn the_ledger_credits_external_forces_and_passes_constraint_impulses() {
    assert_eq!(balance::<World>(10, 3, 4, 2), 15);
    // An increment that carries momentum changes nothing that is owed.
    assert_eq!(balance::<World>(10 + 5, 3 + 5, 4, 2), 15);
    // A constraint impulse is owed in full.
    assert_eq!(balance::<World>(10 + 6, 3, 4, 2), 15 + 6);

    let mut world = World::new();
    world.force = 5;
    let set = multibodies();
    let target = momentum_target(&world, MultibodyIndex(0), at(&set, 0), &vec![1, 1, 1], 10);
    assert_eq!(target, 6 - 3 + 50);
}

#[derive(Clone, Copy, Debug, PartialEq, Eq)]
struct Slots {
    owner: usize,
    jacobian: usize,
    first: usize,
    count: usize,
    updates: usize,
}

impl JointConstraintModel for World {
    type Row = i64;
    type JointConstraint = i64;
    type SimdJointConstraint = [i64; 4];
    type JointConstraintBuilder = ();
    type JointConstraintBuilderSimd = ();
    type ExternalBuilder = Slots;
    type InternalBuilder = Slots;
    type Joint = usize;

    fn invalid_joint_constraint() -> Constraint<Self> {
        GenericJointConstraint { impulse: -1, impulse_bounds: [-1, -1], row: -1 }
    }

    /// Root links need no constraint, the others as many as their position says.
    fn num_internal_constraints(
        &self,
        _: &MultibodyJointSet<i64>,
        link: &MultibodyLinkId,
    ) -> usize {
        self.log(format!("count {}", link.id));
        link.id
    }

    fn generate_external(
        &self,
        _: &MultibodyJointSet<i64>,
        joint_id: usize,
        joint: &usize,
        builder: Builder<Self>,
        mut assembly: JointAssembly<i64>,
    ) -> (Builder<Self>, JointAssembly<i64>) {
        let stale = !matches!(builder, GenericJointConstraintBuilder::Empty);
        self.log(format!("external {} {}", joint_id, stale));
        let slots = Slots {
            owner: joint_id,
            jacobian: assembly.j_id,
            first: assembly.num_constraints,
            count: *joint,
            updates: 0,
        };
        assembly.num_constraints += *joint;
        assembly.j_id += 10;
        assembly.jacobians.push(joint_id as i64);
        (GenericJointConstraintBuilder::External(slots), assembly)
    }

    fn generate_internal(
        &self,
        _: &MultibodyJointSet<i64>,
        link: &MultibodyLinkId,
        builder: Builder<Self>,
        mut assembly: JointAssembly<i64>,
    ) -> (Builder<Self>, JointAssembly<i64>) {
        self.log(format!("internal {} {}", link.multibody.0, link.id));
        if link.id == 0 {
            return (builder, assembly);
        }
        let slots = Slots {
            owner: link.multibody.0,
            jacobian: assembly.j_id,
            first: assembly.num_constraints,
            count: link.id,
            updates: 0,
        };
        assembly.num_constraints += link.id;
        assembly.j_id += 100;
        assembly.jacobians.push(-(link.id as i64));
        (GenericJointConstraintBuilder::Internal(slots), assembly)
    }

    fn update_external(
        &self,
        builder: Slots,
        params: &IntegrationParameters<i64>,
        _: &MultibodyJointSet<i64>,
        solver_bodies: &Vec<i64>,
        jacobians: Vec<i64>,
        constraints: Vec<Constraint<Self>>,
    ) -> (Slots, Vec<i64>, Vec<Constraint<Self>>) {
        self.log(format!("update external {} {:?}", builder.owner, solver_bodies));
        self.derive(builder, params, jacobians, constraints)
    }

    fn update_internal(
        &self,
        builder: Slots,
        params: &IntegrationParameters<i64>,
        _: &MultibodyJointSet<i64>,
        jacobians: Vec<i64>,
        constraints: Vec<Constraint<Self>>,
    ) -> (Slots, Vec<i64>, Vec<Constraint<Self>>) {
        self.log(format!("update internal {}", builder.owner));
        self.derive(builder, params, jacobians, constraints)
    }

    fn writeback_impulses(
        constraint: AnyJointConstraint<'_, Self>,
        mut joints: Vec<JointGraphEdge<usize>>,
    ) -> Vec<JointGraphEdge<usize>> {
        let value = match constraint {
            AnyJointConstraint::Generic(c) => c.impulse as usize,
            AnyJointConstraint::Rigid(c) => *c as usize,
            AnyJointConstraint::SimdRigid(c) => c[0] as usize,
        };
        joints[0].weight = 10 * joints[0].weight + value;
        joints
    }
}

impl World {
    fn derive(
        &self,
        mut builder: Slots,
        params: &IntegrationParameters<i64>,
        mut jacobians: Vec<i64>,
        mut constraints: Vec<Constraint<World>>,
    ) -> (Slots, Vec<i64>, Vec<Constraint<World>>) {
        if let Some(n) = self.constraints_after_update {
            constraints.resize(n, World::invalid_joint_constraint());
        }
        builder.updates += 1;
        let entry = builder.first.min(jacobians.len() - 1);
        jacobians[entry] = params.dt;
        for i in builder.first..builder.first + builder.count {
            if i < constraints.len() {
                constraints[i] = GenericJointConstraint {
                    impulse: 0,
                    impulse_bounds: [0, 0],
                    row: 100 * builder.owner as i64 + params.dt,
                };
            }
        }
        (builder, jacobians, constraints)
    }
}

fn edges(weights: &[usize]) -> Vec<JointGraphEdge<usize>> {
    weights.iter().map(|weight| JointGraphEdge { weight: *weight }).collect()
}

fn slots_of(builder: &Builder<World>) -> Option<(bool, Slots)> {
    match builder {
        GenericJointConstraintBuilder::External(slots) => Some((true, *slots)),
        GenericJointConstraintBuilder::Internal(slots) => Some((false, *slots)),
        GenericJointConstraintBuilder::Empty => None,
    }
}

#[test]
fn a_new_set_is_empty() {
    let mut set: JointConstraintsSet<World> = JointConstraintsSet::new();
    assert!(set.generic_jacobians.is_empty());
    assert!(set.two_body_interactions.is_empty());
    assert!(set.generic_two_body_interactions.is_empty());
    assert!(set.generic_velocity_constraints.is_empty());
    assert!(set.velocity_constraints.is_empty());
    assert!(set.simd_velocity_constraints.is_empty());
    assert!(set.generic_velocity_constraints_builder.is_empty());
    assert!(set.velocity_constraints_builder.is_empty());
    assert!(set.simd_velocity_constraints_builder.is_empty());
    let (jacobians, constraints) = set.iter_constraints_mut();
    assert!(jacobians.is_empty());
    assert!(constraints.is_empty());
    let mut joints = edges(&[4]);
    set.writeback_impulses(&mut joints);
    assert_eq!(joints[0].weight, 4);
}

#[test]
fn builders_of_interactions_come_before_those_of_links() {
    let world = World::new();
    let mut set: JointConstraintsSet<World> = JointConstraintsSet::new();
    set.generic_two_body_interactions = vec![2, 0];
    let mut j_id = 5;
    set.compute_generic_joint_constraints(
        &handles(&[0, 4, 2, 1]),
        &world,
        &multibodies(),
        &edges(&[3, 50, 1]),
        &mut j_id,
    );
    let builders: Vec<_> =
        set.generic_velocity_constraints_builder.iter().map(|b| slots_of(b).unwrap()).collect();
    assert_eq!(
        builders,
        vec![
            (true, Slots { owner: 2, jacobian: 5, first: 0, count: 1, updates: 0 }),
            (true, Slots { owner: 0, jacobian: 15, first: 1, count: 3, updates: 0 }),
            (false, Slots { owner: 2, jacobian: 25, first: 4, count: 2, updates: 0 }),
            (false, Slots { owner: 0, jacobian: 125, first: 6, count: 1, updates: 0 }),
        ]
    );
    assert_eq!(set.generic_velocity_constraints.len(), 7);
    assert!(set.generic_velocity_constraints.iter().all(|c| c.row == -1));
    assert_eq!(set.generic_jacobians, vec![2, 0, -2, -1]);
    assert_eq!(j_id, 5 + 10 + 10 + 100 + 100);
    assert_eq!(
        world.lines(),
        vec![
            "count 0",
            "count 2",
            "count 1",
            "external 2 false",
            "external 0 false",
            "internal 0 0",
            "internal 2 2",
            "internal 0 1",
        ]
    );
}

#[test]
fn generation_stops_when_no_builder_is_left() {
    let world = World::new();
    let mut set: JointConstraintsSet<World> = JointConstraintsSet::new();
    let mut j_id = 0;
    set.compute_generic_joint_constraints(
        &handles(&[1, 0, 0]),
        &world,
        &multibodies(),
        &[],
        &mut j_id,
    );
    assert_eq!(set.generic_velocity_constraints_builder.len(), 1);
    assert_eq!(set.generic_velocity_constraints.len(), 1);
    assert_eq!(world.lines(), vec!["count 1", "count 0", "count 0", "internal 0 1"]);
}

#[test]
fn generation_drops_what_is_no_longer_needed() {
    let world = World::new();
    let mut set: JointConstraintsSet<World> = JointConstraintsSet::new();
    set.generic_two_body_interactions = vec![0, 1];
    set.two_body_interactions = vec![7];
    set.velocity_constraints = vec![8];
    let mut j_id = 0;
    set.compute_generic_joint_constraints(
        &[],
        &world,
        &multibodies(),
        &edges(&[2, 3]),
        &mut j_id,
    );
    for (i, constraint) in set.generic_velocity_constraints.iter_mut().enumerate() {
        constraint.row = i as i64;
    }
    set.generic_two_body_interactions = vec![1];
    set.compute_generic_joint_constraints(
        &[],
        &world,
        &multibodies(),
        &edges(&[2, 3]),
        &mut j_id,
    );
    assert_eq!(set.generic_velocity_constraints_builder.len(), 1);
    let rows: Vec<i64> = set.generic_velocity_constraints.iter().map(|c| c.row).collect();
    assert_eq!(rows, vec![0, 1, 2]);
    assert_eq!(j_id, 30);
    assert_eq!(set.two_body_interactions, vec![7]);
    assert_eq!(set.velocity_constraints, vec![8]);
    assert_eq!(world.lines(), vec!["external 0 false", "external 1 false", "external 1 true"]);
}

/// A set with two builders, for three constraints that have accumulated impulses.
fn loaded_set(world: &World) -> JointConstraintsSet<World> {
    let mut set: JointConstraintsSet<World> = JointConstraintsSet::new();
    set.generic_two_body_interactions = vec![0];
    let mut j_id = 0;
    set.compute_generic_joint_constraints(
        &handles(&[1]),
        world,
        &multibodies(),
        &edges(&[2]),
        &mut j_id,
    );
    set.generic_velocity_constraints_builder.push(GenericJointConstraintBuilder::Empty);
    for (i, constraint) in set.generic_velocity_constraints.iter_mut().enumerate() {
        constraint.impulse = i as i64 + 1;
        constraint.impulse_bounds = [-5, i as i64 + 6];
    }
    world.trace.borrow_mut().clear();
    set
}

#[test]
fn an_update_keeps_impulses_and_their_bounds() {
    let world = World::new();
    let mut set = loaded_set(&world);
    set.velocity_constraints = vec![8];
    let params = IntegrationParameters { dt: 3 };
    set.update_multibody_coupled(&params, &world, &multibodies(), &vec![6, 6]);
    assert_eq!(world.lines(), vec!["update external 0 [6, 6]", "update internal 0"]);
    assert_eq!(set.generic_velocity_constraints.len(), 3);
    for (i, constraint) in set.generic_velocity_constraints.iter().enumerate() {
        assert_eq!(constraint.impulse, i as i64 + 1);
        assert_eq!(constraint.impulse_bounds, [-5, i as i64 + 6]);
        assert_eq!(constraint.row, 3);
    }
    assert_eq!(set.generic_jacobians, vec![3, 3]);
    let builders: Vec<_> = set.generic_velocity_constraints_builder.iter().map(slots_of).collect();
    assert_eq!(
        builders,
        vec![
            Some((true, Slots { owner: 0, jacobian: 0, first: 0, count: 2, updates: 1 })),
            Some((false, Slots { owner: 0, jacobian: 10, first: 2, count: 1, updates: 1 })),
            None,
        ]
    );
    assert_eq!(set.velocity_constraints, vec![8]);
}

#[test]
fn an_update_that_changes_the_number_of_constraints_keeps_what_fits() {
    let mut world = World::new();
    world.constraints_after_update = Some(2);
    let mut set = loaded_set(&world);
    let params = IntegrationParameters { dt: 3 };
    set.update_multibody_coupled(&params, &world, &multibodies(), &Vec::new());
    let impulses: Vec<i64> = set.generic_velocity_constraints.iter().map(|c| c.impulse).collect();
    assert_eq!(impulses, vec![1, 2]);

    world.constraints_after_update = Some(4);
    let mut set = loaded_set(&world);
    set.update_multibody_coupled(&params, &world, &multibodies(), &Vec::new());
    let impulses: Vec<i64> = set.generic_velocity_constraints.iter().map(|c| c.impulse).collect();
    assert_eq!(impulses, vec![1, 2, 3, -1]);
}

#[test]
fn impulses_are_saved_and_restored() {
    let constraint = |impulse: i64, bound: i64, row: i64| GenericJointConstraint {
        impulse,
        impulse_bounds: [-bound, bound],
        row,
    };
    let before = vec![constraint(1, 2, 3), constraint(4, 5, 6)];
    let saved = save_impulses(&before);
    assert_eq!(saved, vec![(1, [-2, 2]), (4, [-5, 5])]);
    let mut after = vec![constraint(0, 0, 7), constraint(0, 0, 8), constraint(0, 0, 9)];
    restore_impulses(&mut after, &saved);
    let all: Vec<_> = after.iter().map(|c| (c.impulse, c.impulse_bounds, c.row)).collect();
    assert_eq!(all, vec![(1, [-2, 2], 7), (4, [-5, 5], 8), (0, [0, 0], 9)]);
}

#[test]
fn constraints_are_visited_generic_first_and_simd_last() {
    let world = World::new();
    let mut set = loaded_set(&world);
    set.velocity_constraints = vec![4, 5];
    set.simd_velocity_constraints = vec![[6, 0, 0, 0]];
    let (jacobians, constraints) = set.iter_constraints_mut();
    assert_eq!(*jacobians, vec![0, -1]);
    let mut seen = Vec::new();
    for constraint in constraints {
        match constraint {
            AnyJointConstraintMut::Generic(c) => {
                seen.push(format!("generic {}", c.impulse));
                c.impulse += 10;
            }
            AnyJointConstraintMut::Rigid(c) => {
                seen.push(format!("rigid {}", c));
                *c += 20;
            }
            AnyJointConstraintMut::SimdRigid(c) => {
                seen.push(format!("simd {}", c[0]));
                c[0] += 30;
            }
        }
    }
    assert_eq!(
        seen,
        vec!["generic 1", "generic 2", "generic 3", "rigid 4", "rigid 5", "simd 6"]
    );
    let impulses: Vec<i64> = set.generic_velocity_constraints.iter().map(|c| c.impulse).collect();
    assert_eq!(impulses, vec![11, 12, 13]);
    assert_eq!(set.velocity_constraints, vec![24, 25]);
    assert_eq!(set.simd_velocity_constraints, vec![[36, 0, 0, 0]]);
}

#[test]
fn impulses_are_written_back_in_the_same_order() {
    let world = World::new();
    let mut set = loaded_set(&world);
    set.velocity_constraints = vec![4, 5];
    set.simd_velocity_constraints = vec![[6, 0, 0, 0]];
    let mut joints = edges(&[0, 9]);
    set.writeback_impulses(&mut joints);
    assert_eq!(joints[0].weight, 123456);
    assert_eq!(joints[1].weight, 9);
    assert_eq!(set.generic_velocity_constraints.len(), 3);
    assert_eq!(set.velocity_constraints, vec![4, 5]);
}

impl ContactConstraintModel for World {
    type Manifold = i64;
    type GenericContactConstraint = i64;
    type GenericContactConstraintBuilder = usize;

    fn invalid_contact_constraint() -> i64 {
        -1
    }

    fn invalid_contact_builder() -> usize {
        77
    }

    fn generate_contact(
        &self,
        _: &MultibodyJointSet<i64>,
        manifold_id: ManifoldRef,
        manifold: &i64,
        builder: usize,
        constraint: i64,
        mut assembly: ContactAssembly<i64>,
    ) -> (usize, i64, ContactAssembly<i64>) {
        self.log(format!("contact {} {} {}", manifold_id.0, builder, constraint));
        let id = assembly.jacobian_id;
        self.log(format!("reserves {}..{}", id, id + 3));
        assembly.jacobians.push(*manifold);
        assembly.jacobian_id += 3;
        (manifold_id.0, 2 * *manifold, assembly)
    }
}

#[test]
fn contact_constraints_follow_the_order_of_the_manifolds() {
    let world = World::new();
    let mut set: ContactConstraintsSet<World> = ContactConstraintsSet {
        generic_jacobians: vec![1],
        generic_velocity_constraints: vec![5],
        generic_velocity_constraints_builder: vec![6],
    };
    let graph = SolverContactGraph {
        generic_manifolds: vec![ManifoldRef(2), ManifoldRef(0), ManifoldRef(2)],
    };
    let store = ManifoldStore { manifolds: vec![10, 20, 30] };
    let mut jacobian_id = 4;
    set.compute_generic_constraints(&world, &multibodies(), &graph, &store, &mut jacobian_id);
    assert_eq!(set.generic_velocity_constraints_builder, vec![2, 0, 2]);
    assert_eq!(set.generic_velocity_constraints, vec![60, 20, 60]);
    assert_eq!(set.generic_jacobians, vec![1, 30, 10, 30]);
    assert_eq!(jacobian_id, 13);
    assert_eq!(
        world.lines(),
        vec![
            "contact 2 6 5",
            "reserves 4..7",
            "contact 0 77 -1",
            "reserves 7..10",
            "contact 2 77 -1",
            "reserves 10..13",
        ]
    );
}

#[test]
fn without_contacts_the_contact_set_is_empty() {
    let world = World::new();
    let mut set: ContactConstraintsSet<World> = ContactConstraintsSet {
        generic_jacobians: vec![1],
        generic_velocity_constraints: vec![5, 6],
        generic_velocity_constraints_builder: vec![6],
    };
    let graph = SolverContactGraph { generic_manifolds: Vec::new() };
    let store = ManifoldStore { manifolds: vec![10] };
    let mut jacobian_id = 4;
    set.compute_generic_constraints(&world, &multibodies(), &graph, &store, &mut jacobian_id);
    assert!(set.generic_velocity_constraints.is_empty());
    assert!(set.generic_velocity_constraints_builder.is_empty());
    assert_eq!(set.generic_jacobians, vec![1]);
    assert_eq!(jacobian_id, 4);
    assert_eq!(*store.get(ManifoldRef(0)), 10);
    assert!(graph.generic().is_empty());
}

#[test]
fn contacts_depend_on_the_listed_manifolds_alone() {
    let world = World::new();
    let graph = SolverContactGraph { generic_manifolds: vec![ManifoldRef(2), ManifoldRef(0)] };
    let mut results = Vec::new();
    for unlisted in [20, -20] {
        let mut set: ContactConstraintsSet<World> = ContactConstraintsSet {
            generic_jacobians: vec![1],
            generic_velocity_constraints: vec![5],
            generic_velocity_constraints_builder: vec![6],
        };
        let store = ManifoldStore { manifolds: vec![10, unlisted, 30, unlisted] };
        let mut jacobian_id = 4;
        set.compute_generic_constraints(&world, &multibodies(), &graph, &store, &mut jacobian_id);
        results.push((
            set.generic_velocity_constraints_builder,
            set.generic_velocity_constraints,
            set.generic_jacobians,
            jacobian_id,
        ));
    }
    assert_eq!(results[0], results[1]);
    assert_eq!(results[0].1, vec![60, 20]);
}

#[test]
fn a_fixed_base_elsewhere_does_not_disturb_a_floating_multibody() {
    let mut world = World::new();
    world.fixed = Some(2);
    let (mut solver, mut set, mut world) = initialized(world, 2);
    let params = IntegrationParameters { dt: 2 };
    for substep in 0..4 {
        for (vel, gain) in
            solver.generic_solver_vels.iter_mut().zip(&solver.generic_solver_vels_increment)
        {
            *vel += gain;
        }
        solver.generic_solver_vels[1] += 70;
        solver.generic_solver_vels[2] -= 70;
        world = solver.integrate_multibody_positions(&params, substep == 3, world, &mut set);
        let momentum: i64 = at(&set, 0).velocities.iter().sum();
        assert_eq!(momentum, 6);
    }
    // The fixed one has gained the momentum of its increments.
    let momentum: i64 = at(&set, 2).velocities.iter().sum();
    assert_eq!(momentum, 9 + 4 * 2 * (30 + 31));
}

#[test]
fn the_momentum_after_a_substep_is_the_target_of_the_ledger() {
    let mut world = World::new();
    world.force = 4;
    let (mut solver, mut set, world) = initialized(world, 3);
    solver.generic_solver_vels = vec![100, 1, 2, 200, 3];
    let entering = Multibody {
        root_is_dynamic: true,
        solver_id: 0,
        velocities: vec![100, 1, 2],
        accelerations: vec![0; 3],
    };
    let increment = solver.generic_solver_vels_increment[0..3].to_vec();
    let target = momentum_target(&world, MultibodyIndex(0), &entering, &increment, 3);
    let params = IntegrationParameters { dt: 3 };
    solver.integrate_multibody_positions(&params, false, world, &mut set);
    let momentum: i64 = at(&set, 0).velocities.iter().sum();
    assert_eq!(momentum, target);
    assert_eq!(target, 103 - 3 * 33 + 12);
}

#[test]
fn initialization_does_not_depend_on_what_the_solver_held() {
    let params = IntegrationParameters { dt: 3 };
    let mut fresh = solver();
    let mut fresh_set = multibodies();
    let mut used = solver();
    used.solver_bodies = vec![5; 3];
    used.solver_vels_increment = vec![6; 30];
    used.solver_gyro = vec![1; 2];
    used.generic_solver_vels = vec![7; 9];
    used.generic_solver_vels_increment = vec![8; 1];
    used.multibody_roots = vec![link(4, 4)];
    let mut used_set = multibodies();
    let island = handles(&[0, 1, 2, 3, 4]);
    fresh.init_solver_buffers_and_multibodies(&params, &island, World::new(), &mut fresh_set);
    used.init_solver_buffers_and_multibodies(&params, &island, World::new(), &mut used_set);
    assert_eq!(fresh.multibody_roots, used.multibody_roots);
    assert_eq!(fresh.solver_bodies, used.solver_bodies);
    assert_eq!(fresh.solver_vels_increment, used.solver_vels_increment);
    assert_eq!(fresh.solver_gyro, used.solver_gyro);
    assert_eq!(fresh.generic_solver_vels, used.generic_solver_vels);
    assert_eq!(fresh.generic_solver_vels_increment, used.generic_solver_vels_increment);
    for index in [0, 2] {
        assert_eq!(at(&fresh_set, index).solver_id, at(&used_set, index).solver_id);
        assert_eq!(at(&fresh_set, index).velocities, at(&used_set, index).velocities);
        assert_eq!(at(&fresh_set, index).accelerations, at(&used_set, index).accelerations);
    }
}

#[test]
fn the_last_substep_moves_like_any_other() {
    let params = IntegrationParameters { dt: 2 };
    let (mut last, mut last_set, world) = initialized(World::new(), 2);
    last_set.multibodies[0].as_mut().unwrap().accelerations = vec![4; 3];
    last.integrate_multibody_positions(&params, true, world, &mut last_set);
    let (mut other, mut other_set, world) = initialized(World::new(), 2);
    other_set.multibodies[0].as_mut().unwrap().accelerations = vec![4; 3];
    other.integrate_multibody_positions(&params, false, world, &mut other_set);
    assert_eq!(last.generic_solver_vels, other.generic_solver_vels);
    for index in [0, 2] {
        assert_eq!(at(&last_set, index).velocities, at(&other_set, index).velocities);
        assert_eq!(at(&last_set, index).solver_id, at(&other_set, index).solver_id);
    }
    assert_eq!(at(&last_set, 0).accelerations, vec![4; 3]);
    assert_eq!(at(&other_set, 0).accelerations, vec![10, 11, 12]);
}

#[test]
fn constraint_ranges_are_contiguous_and_cover_everything() {
    let world = World::new();
    let mut set: JointConstraintsSet<World> = JointConstraintsSet::new();
    set.generic_two_body_interactions = vec![1, 0, 2];
    let mut j_id = 0;
    set.compute_generic_joint_constraints(
        &handles(&[0, 4, 3, 2, 1]),
        &world,
        &multibodies(),
        &edges(&[3, 5, 1]),
        &mut j_id,
    );
    let mut end = 0;
    for builder in &set.generic_velocity_constraints_builder {
        let (_, slots) = slots_of(builder).unwrap();
        assert_eq!(slots.first, end);
        end += slots.count;
    }
    assert_eq!(end, set.generic_velocity_constraints.len());
    assert_eq!(end, 3 + 5 + 1 + 2 + 1 + 1);
}

#[test]
fn jacobian_ranges_are_contiguous_between_the_ids() {
    let world = World::new();
    let mut set: JointConstraintsSet<World> = JointConstraintsSet::new();
    set.generic_two_body_interactions = vec![1, 0];
    let mut j_id = 40;
    set.compute_generic_joint_constraints(
        &handles(&[0, 4, 2, 1]),
        &world,
        &multibodies(),
        &edges(&[3, 5]),
        &mut j_id,
    );
    let mut end = 40;
    for builder in &set.generic_velocity_constraints_builder {
        let (is_external, slots) = slots_of(builder).unwrap();
        assert_eq!(slots.jacobian, end);
        end += if is_external { 10 } else { 100 };
    }
    assert_eq!(end, j_id);

    set.generic_two_body_interactions.clear();
    set.compute_generic_joint_constraints(
        &handles(&[0, 2]),
        &world,
        &multibodies(),
        &[],
        &mut j_id,
    );
    assert!(set.generic_velocity_constraints_builder.is_empty());
    assert_eq!(j_id, end);
}

#[test]
fn contact_jacobian_ranges_are_contiguous_between_the_ids() {
    let world = World::new();
    let mut set: ContactConstraintsSet<World> = ContactConstraintsSet {
        generic_jacobians: Vec::new(),
        generic_velocity_constraints: Vec::new(),
        generic_velocity_constraints_builder: Vec::new(),
    };
    let graph = SolverContactGraph {
        generic_manifolds: vec![ManifoldRef(1), ManifoldRef(0), ManifoldRef(1)],
    };
    let store = ManifoldStore { manifolds: vec![10, 20] };
    let mut jacobian_id = 7;
    set.compute_generic_constraints(&world, &multibodies(), &graph, &store, &mut jacobian_id);
    // Each contact reserves three entries and pushes one jacobian.
    assert_eq!(jacobian_id, 7 + 3 * 3);
    assert_eq!(set.generic_jacobians, vec![20, 10, 20]);
    assert_eq!(
        world.lines().iter().filter(|line| line.contains("reserves")).cloned().collect::<Vec<_>>(),
        vec!["reserves 7..10", "reserves 10..13", "reserves 13..16"]
    );
}

#[test]
fn roots_that_share_a_multibody_leave_the_others_alone() {
    let (mut solver, mut set, world) = initialized(World::new(), 1);
    solver.multibody_roots = vec![link(2, 1), link(2, 1)];
    let params = IntegrationParameters { dt: 1 };
    solver.integrate_multibody_positions(&params, false, world, &mut set);
    assert_eq!(solver.generic_solver_vels[0..3], [1, 2, 3]);
    assert_eq!(solver.generic_solver_vels_increment[0..3], [10, 11, 12]);
    assert_eq!(at(&set, 0).velocities, vec![1, 2, 3]);
    assert_eq!(at(&set, 0).accelerations, vec![10, 11, 12]);
    assert!(set.multibodies[1].is_none());
}

#[test]
fn rows_without_a_correction_stay_beside_rows_with_one() {
    let mut world = World::new();
    world.fixed = Some(2);
    let (mut solver, mut set, world) = initialized(world, 1);
    solver.generic_solver_vels = vec![20, 21, 22, 40, 41];
    let params = IntegrationParameters { dt: 1 };
    solver.integrate_multibody_positions(&params, false, world, &mut set);
    assert_eq!(solver.generic_solver_vels, vec![20 - 33, 21, 22, 40, 41]);
    assert_eq!(at(&set, 2).velocities, vec![40, 41]);
}

#[test]
fn links_that_stand_for_a_multibody() {
    let set = multibodies();
    assert!(at(&set, 0).is_started_by(link(0, 0)));
    assert!(!at(&set, 0).is_started_by(link(0, 1)));
    assert!(at(&set, 2).is_started_by(link(2, 0)));
    assert!(at(&set, 2).is_started_by(link(2, 1)));
    assert!(!at(&set, 2).is_started_by(link(2, 2)));
}

#[test]
fn bodies_without_constraints_do_not_change_what_is_generated() {
    let world = World::new();
    let mut results = Vec::new();
    for island in [vec![4, 1], vec![2, 0, 4, 0, 2, 1, 2, 0]] {
        let mut set: JointConstraintsSet<World> = JointConstraintsSet::new();
        set.generic_two_body_interactions = vec![0];
        let mut j_id = 7;
        set.compute_generic_joint_constraints(
            &handles(&island),
            &world,
            &multibodies(),
            &edges(&[3]),
            &mut j_id,
        );
        let builders: Vec<_> =
            set.generic_velocity_constraints_builder.iter().map(slots_of).collect();
        results.push((
            builders,
            set.generic_velocity_constraints.len(),
            set.generic_jacobians,
            j_id,
        ));
    }
    assert_eq!(results[0], results[1]);
    assert_eq!(results[0].1, 6);
}

fn values_of(set: &JointConstraintsSet<World>) -> Vec<(i64, [i64; 2], i64)> {
    set.generic_velocity_constraints
        .iter()
        .map(|c| (c.impulse, c.impulse_bounds, c.row))
        .collect()
}

#[test]
fn a_second_update_changes_nothing() {
    let world = World::new();
    let mut set = loaded_set(&world);
    let params = IntegrationParameters { dt: 3 };
    set.update_multibody_coupled(&params, &world, &multibodies(), &vec![6]);
    let jacobians = set.generic_jacobians.clone();
    let values = values_of(&set);
    assert_eq!(values[2], (3, [-5, 8], 3));
    set.update_multibody_coupled(&params, &world, &multibodies(), &vec![6]);
    assert_eq!(set.generic_jacobians, jacobians);
    assert_eq!(values_of(&set), values);
}

#[test]
fn old_impulses_do_not_reach_the_rows() {
    let world = World::new();
    let mut plain = loaded_set(&world);
    let mut loaded = loaded_set(&world);
    for constraint in &mut loaded.generic_velocity_constraints {
        constraint.impulse += 1000;
        constraint.impulse_bounds = [-9000, 9000];
    }
    let params = IntegrationParameters { dt: 3 };
    plain.update_multibody_coupled(&params, &world, &multibodies(), &vec![6]);
    loaded.update_multibody_coupled(&params, &world, &multibodies(), &vec![6]);
    assert_eq!(plain.generic_jacobians, loaded.generic_jacobians);
    for (a, b) in values_of(&plain).iter().zip(&values_of(&loaded)) {
        assert_eq!(a.2, b.2);
        assert_eq!(a.0 + 1000, b.0);
        assert_eq!(b.1, [-9000, 9000]);
    }
}
