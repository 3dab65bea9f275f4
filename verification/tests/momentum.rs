//! Linear momentum of a floating multibody that is driven through the solver.
//!
//! Joint motors and limits are internal forces: for a floating multibody with no contacts and no
//! gravity, the total linear momentum of the links must stay what it is no matter how the joints
//! are driven.
//!
//! The world of these tests has bodies that move in the plane `z = 0`. Two of them can be joined
//! by a revolute joint about the z axis, which makes them a multibody of four degrees of freedom:
//! the position and the angle of the root, and the angle of the joint.

use multibody_solver::contact_constraints_set::{
    ContactAssembly, ContactConstraintModel, ContactConstraintsSet, ManifoldRef, ManifoldStore,
    SolverContactGraph,
};
use multibody_solver::dynamics::MultibodyDynamics;
use multibody_solver::joint_constraints_set::{
    AnyJointConstraint, AnyJointConstraintMut, Builder, Constraint, GenericJointConstraint,
    GenericJointConstraintBuilder, JointAssembly, JointConstraintModel, JointConstraintsSet,
    JointGraphEdge,
};
use multibody_solver::multibody::{
    IntegrationParameters, Multibody, MultibodyIndex, MultibodyJointSet, MultibodyLinkId,
    RigidBodyHandle,
};
use multibody_solver::velocity_solver::VelocitySolver;
use parry3d::math::Real;

const MASS: Real = 1.0;
const INERTIA: Real = 0.05;
const BALL_RADIUS: Real = 0.2;
const NUM_SUBSTEPS: usize = 4;
const NUM_DOFS: usize = 4;
const JOINT_DOF: usize = 3;

#[derive(Clone, Copy, Debug)]
struct Vector([Real; 3]);

impl Vector {
    const ZERO: Vector = Vector([0.0; 3]);

    fn new(x: Real, y: Real, z: Real) -> Self {
        Vector([x, y, z])
    }

    fn plus(self, other: Vector) -> Vector {
        Vector([self.0[0] + other.0[0], self.0[1] + other.0[1], self.0[2] + other.0[2]])
    }

    fn minus(self, other: Vector) -> Vector {
        self.plus(other.scaled(-1.0))
    }

    fn scaled(self, factor: Real) -> Vector {
        Vector([self.0[0] * factor, self.0[1] * factor, self.0[2] * factor])
    }

    /// The derivative of this vector when it turns about the z axis at unit speed.
    fn turned(self) -> Vector {
        Vector([-self.0[1], self.0[0], 0.0])
    }

    fn dot(self, other: Vector) -> Real {
        self.0[0] * other.0[0] + self.0[1] * other.0[1] + self.0[2] * other.0[2]
    }

    fn length(self) -> Real {
        self.dot(self).sqrt()
    }

    fn is_finite(self) -> bool {
        self.0[0].is_finite() && self.0[1].is_finite() && self.0[2].is_finite()
    }
}

#[derive(Clone, Copy)]
struct Body {
    dynamic: bool,
    translation: Vector,
    angle: Real,
    linvel: Vector,
    angvel: Real,
}

/// The joint between the two links, and its motor and limits.
#[derive(Clone, Copy)]
struct Revolute {
    anchor1: Vector,
    anchor2: Vector,
    limits: Option<[Real; 2]>,
    motor: Option<Motor>,
}

#[derive(Clone, Copy)]
struct Motor {
    velocity: Real,
    max_force: Real,
}

/// The kinematics of the multibody.
#[derive(Clone, Copy)]
struct Chain {
    links: [usize; 2],
    joint: Revolute,
    /// The generalized positions.
    coords: [Real; NUM_DOFS],
    /// From the center of the root to the joint.
    arm1: Vector,
    /// From the joint to the center of the second link.
    arm2: Vector,
    mass_matrix: [[Real; NUM_DOFS]; NUM_DOFS],
}

fn rotated(v: Vector, angle: Real) -> Vector {
    let (sin, cos) = (angle.sin(), angle.cos());
    Vector::new(cos * v.0[0] - sin * v.0[1], sin * v.0[0] + cos * v.0[1], 0.0)
}

/// Solves a linear system by elimination with pivoting.
fn solve(matrix: &[[Real; NUM_DOFS]; NUM_DOFS], rhs: [Real; NUM_DOFS]) -> [Real; NUM_DOFS] {
    let mut a = *matrix;
    let mut b = rhs;
    for i in 0..NUM_DOFS {
        let mut pivot = i;
        for r in i + 1..NUM_DOFS {
            if a[r][i].abs() > a[pivot][i].abs() {
                pivot = r;
            }
        }
        a.swap(i, pivot);
        b.swap(i, pivot);
        for r in i + 1..NUM_DOFS {
            let factor = a[r][i] / a[i][i];
            for c in i..NUM_DOFS {
                a[r][c] -= factor * a[i][c];
            }
            b[r] -= factor * b[i];
        }
    }
    let mut x = [0.0; NUM_DOFS];
    for i in (0..NUM_DOFS).rev() {
        let mut value = b[i];
        for c in i + 1..NUM_DOFS {
            value -= a[i][c] * x[c];
        }
        x[i] = value / a[i][i];
    }
    x
}

impl Chain {
    fn assemble(links: [usize; 2], bodies: &[Body], joint: Revolute) -> Self {
        let root = bodies[links[0]];
        let second = bodies[links[1]];
        let mut chain = Chain {
            links,
            joint,
            coords: [
                root.translation.0[0],
                root.translation.0[1],
                root.angle,
                second.angle - root.angle,
            ],
            arm1: Vector::ZERO,
            arm2: Vector::ZERO,
            mass_matrix: [[0.0; NUM_DOFS]; NUM_DOFS],
        };
        chain.update_arms();
        chain
    }

    fn update_arms(&mut self) {
        let root_angle = self.coords[2];
        self.arm1 = rotated(self.joint.anchor1, root_angle);
        self.arm2 = rotated(self.joint.anchor2.scaled(-1.0), root_angle + self.coords[3]);
    }

    /// The directions in which a link moves along each degree of freedom.
    fn jacobian(&self, link: usize) -> [Vector; NUM_DOFS] {
        let x = Vector::new(1.0, 0.0, 0.0);
        let y = Vector::new(0.0, 1.0, 0.0);
        if link == 0 {
            [x, y, Vector::ZERO, Vector::ZERO]
        } else {
            [x, y, self.arm1.plus(self.arm2).turned(), self.arm2.turned()]
        }
    }

    fn angular_jacobian(link: usize) -> [Real; NUM_DOFS] {
        if link == 0 {
            [0.0, 0.0, 1.0, 0.0]
        } else {
            [0.0, 0.0, 1.0, 1.0]
        }
    }

    fn linvel(&self, link: usize, velocities: &[Real]) -> Vector {
        let mut v = Vector::ZERO;
        for (column, rate) in self.jacobian(link).iter().zip(velocities.iter()) {
            v = v.plus(column.scaled(*rate));
        }
        v
    }

    /// The momentum map of the current configuration.
    fn momentum(&self, velocities: &[Real]) -> Vector {
        self.linvel(0, velocities).plus(self.linvel(1, velocities)).scaled(MASS)
    }

    fn update_mass_matrix(&mut self) {
        for r in 0..NUM_DOFS {
            for c in 0..NUM_DOFS {
                let mut entry = 0.0;
                for link in 0..2 {
                    let lin = self.jacobian(link);
                    let ang = Chain::angular_jacobian(link);
                    entry += MASS * lin[r].dot(lin[c]) + INERTIA * ang[r] * ang[c];
                }
                self.mass_matrix[r][c] = entry;
            }
        }
    }

    /// The accelerations under gravity and the centripetal forces.
    fn accelerations(&self, velocities: &[Real], gravity: Vector) -> [Real; NUM_DOFS] {
        let spin1 = velocities[2];
        let spin2 = velocities[2] + velocities[3];
        let bias = self.arm1.scaled(-spin1 * spin1).plus(self.arm2.scaled(-spin2 * spin2));
        let mut force = [0.0; NUM_DOFS];
        for d in 0..NUM_DOFS {
            force[d] = self.jacobian(0)[d].dot(gravity.scaled(MASS))
                + self.jacobian(1)[d].dot(gravity.minus(bias).scaled(MASS));
        }
        solve(&self.mass_matrix, force)
    }
}

/// The bodies, the kinematics of the multibody if there is one, and the gravity.
struct Scene {
    bodies: Vec<Body>,
    chain: Option<Chain>,
    gravity: Vector,
    dt: Real,
}

impl Scene {
    fn set_link_velocities(&mut self, velocities: &[Real]) {
        let chain = self.chain.unwrap();
        for link in 0..2 {
            let body = &mut self.bodies[chain.links[link]];
            body.linvel = chain.linvel(link, velocities);
            body.angvel = Chain::angular_jacobian(link)
                .iter()
                .zip(velocities.iter())
                .map(|(a, b)| a * b)
                .sum();
        }
    }
}

impl MultibodyDynamics for Scene {
    type Real = Real;
    type Force = Vector;
    type Momentum = Vector;
    type SolverBody = Real;
    type SolverVel = Real;
    type GyroParams = bool;

    fn zero() -> Real {
        0.0
    }

    fn product(a: Real, b: Real) -> Real {
        a * b
    }

    fn momentum_sum(a: Vector, b: Vector) -> Vector {
        a.plus(b)
    }

    fn momentum_difference(a: Vector, b: Vector) -> Vector {
        a.minus(b)
    }

    fn impulse_of(force: Vector, dt: Real) -> Vector {
        force.scaled(dt)
    }

    fn empty_solver_body() -> Real {
        0.0
    }

    fn zero_solver_vel() -> Real {
        0.0
    }

    fn default_gyro_params() -> bool {
        false
    }

    fn update_velocities(mut self, _: MultibodyIndex, multibody: &Multibody<Real>) -> Self {
        self.set_link_velocities(&multibody.velocities);
        self
    }

    fn update_mass_matrix(
        mut self,
        _: MultibodyIndex,
        _: &Multibody<Real>,
        _: Real,
    ) -> Self {
        self.chain.as_mut().unwrap().update_mass_matrix();
        self
    }

    fn update_acceleration(
        self,
        _: MultibodyIndex,
        multibody: &Multibody<Real>,
        _: Real,
    ) -> (Self, Vec<Real>) {
        let accelerations =
            self.chain.unwrap().accelerations(&multibody.velocities, self.gravity);
        (self, accelerations.to_vec())
    }

    fn linear_momentum(&self, _: MultibodyIndex, multibody: &Multibody<Real>) -> Vector {
        self.chain.unwrap().momentum(&multibody.velocities)
    }

    fn map_momentum(
        &self,
        _: MultibodyIndex,
        _: &Multibody<Real>,
        increment: &Vec<Real>,
    ) -> Vector {
        self.chain.unwrap().momentum(increment)
    }

    fn total_external_force(&self, _: MultibodyIndex, _: &Multibody<Real>) -> Vector {
        self.gravity.scaled(2.0 * MASS)
    }

    fn integrate(mut self, _: MultibodyIndex, multibody: &Multibody<Real>, dt: Real) -> Self {
        let chain = self.chain.as_mut().unwrap();
        for d in 0..NUM_DOFS {
            chain.coords[d] += multibody.velocities[d] * dt;
        }
        self
    }

    fn forward_kinematics(
        mut self,
        _: MultibodyIndex,
        _: &Multibody<Real>,
        read_root_pose: bool,
    ) -> Self {
        assert!(!read_root_pose);
        self.chain.as_mut().unwrap().update_arms();
        self
    }

    fn update_rigid_bodies_internal(
        mut self,
        _: MultibodyIndex,
        _: &Multibody<Real>,
        _: bool,
        _: bool,
        _: bool,
    ) -> Self {
        let chain = self.chain.unwrap();
        let root = Vector::new(chain.coords[0], chain.coords[1], 0.0);
        self.bodies[chain.links[0]].translation = root;
        self.bodies[chain.links[0]].angle = chain.coords[2];
        self.bodies[chain.links[1]].translation = root.plus(chain.arm1).plus(chain.arm2);
        self.bodies[chain.links[1]].angle = chain.coords[2] + chain.coords[3];
        self
    }

    fn reconcile_base_linear_momentum(
        mut self,
        _: MultibodyIndex,
        multibody: &Multibody<Real>,
        target: Vector,
    ) -> (Self, Option<Vec<Real>>) {
        let error = target.minus(self.chain.unwrap().momentum(&multibody.velocities));
        let mut velocities = multibody.velocities.clone();
        velocities[0] += error.0[0] / (2.0 * MASS);
        velocities[1] += error.0[1] / (2.0 * MASS);
        self.set_link_velocities(&velocities);
        (self, Some(velocities))
    }
}

/// A row that acts on the joint: what a unit of impulse does to the velocities, and the velocity
/// that is asked for. Its impulse is written back to one of the joint's two slots.
#[derive(Clone, Copy)]
struct JointRow {
    slot: usize,
    response: [Real; NUM_DOFS],
    inv_lhs: Real,
    rhs: Real,
    rhs_wo_bias: Real,
}

const NO_ROW: JointRow =
    JointRow { slot: 0, response: [0.0; NUM_DOFS], inv_lhs: 0.0, rhs: 0.0, rhs_wo_bias: 0.0 };

#[derive(Clone, Copy)]
struct LinkBuilder {
    first_constraint: usize,
}

impl Scene {
    fn joint_of(&self, link: &MultibodyLinkId) -> Option<Revolute> {
        if link.id == 1 {
            self.chain.map(|chain| chain.joint)
        } else {
            None
        }
    }
}

impl JointConstraintModel for Scene {
    type Row = JointRow;
    type JointConstraint = ();
    type SimdJointConstraint = ();
    type JointConstraintBuilder = ();
    type JointConstraintBuilderSimd = ();
    type ExternalBuilder = ();
    type InternalBuilder = LinkBuilder;
    type Joint = Real;

    fn invalid_joint_constraint() -> Constraint<Self> {
        GenericJointConstraint { impulse: 0.0, impulse_bounds: [0.0, 0.0], row: NO_ROW }
    }

    fn num_internal_constraints(
        &self,
        _: &MultibodyJointSet<Real>,
        link: &MultibodyLinkId,
    ) -> usize {
        match self.joint_of(link) {
            Some(joint) => joint.limits.is_some() as usize + joint.motor.is_some() as usize,
            None => 0,
        }
    }

    fn generate_external(
        &self,
        _: &MultibodyJointSet<Real>,
        _: usize,
        _: &Real,
        builder: Builder<Self>,
        assembly: JointAssembly<Real>,
    ) -> (Builder<Self>, JointAssembly<Real>) {
        (builder, assembly)
    }

    fn generate_internal(
        &self,
        multibodies: &MultibodyJointSet<Real>,
        link: &MultibodyLinkId,
        builder: Builder<Self>,
        mut assembly: JointAssembly<Real>,
    ) -> (Builder<Self>, JointAssembly<Real>) {
        let count = self.num_internal_constraints(multibodies, link);
        if count == 0 {
            return (builder, assembly);
        }
        let first_constraint = assembly.num_constraints;
        assembly.num_constraints += count;
        assembly.j_id += count * NUM_DOFS;
        (GenericJointConstraintBuilder::Internal(LinkBuilder { first_constraint }), assembly)
    }

    fn update_external(
        &self,
        builder: (),
        _: &IntegrationParameters<Real>,
        _: &MultibodyJointSet<Real>,
        _: &Vec<Real>,
        jacobians: Vec<Real>,
        constraints: Vec<Constraint<Self>>,
    ) -> ((), Vec<Real>, Vec<Constraint<Self>>) {
        (builder, jacobians, constraints)
    }

    fn update_internal(
        &self,
        builder: LinkBuilder,
        params: &IntegrationParameters<Real>,
        _: &MultibodyJointSet<Real>,
        jacobians: Vec<Real>,
        mut constraints: Vec<Constraint<Self>>,
    ) -> (LinkBuilder, Vec<Real>, Vec<Constraint<Self>>) {
        let chain = self.chain.unwrap();
        let mut unit = [0.0; NUM_DOFS];
        unit[JOINT_DOF] = 1.0;
        let response = solve(&chain.mass_matrix, unit);
        let inv_lhs = 1.0 / response[JOINT_DOF];
        let mut next = builder.first_constraint;
        if let Some(motor) = chain.joint.motor {
            let max_impulse = motor.max_force * params.dt;
            constraints[next] = GenericJointConstraint {
                impulse: 0.0,
                impulse_bounds: [-max_impulse, max_impulse],
                row: JointRow {
                    slot: 0,
                    response,
                    inv_lhs,
                    rhs: motor.velocity,
                    rhs_wo_bias: motor.velocity,
                },
            };
            next += 1;
        }
        if let Some([min, max]) = chain.joint.limits {
            let angle = chain.coords[JOINT_DOF];
            let (violation, impulse_bounds) = if angle < min {
                (min - angle, [0.0, Real::MAX])
            } else if angle > max {
                (max - angle, [-Real::MAX, 0.0])
            } else {
                (0.0, [0.0, 0.0])
            };
            constraints[next] = GenericJointConstraint {
                impulse: 0.0,
                impulse_bounds,
                row: JointRow {
                    slot: 1,
                    response,
                    inv_lhs,
                    rhs: 0.2 * violation / params.dt,
                    rhs_wo_bias: 0.0,
                },
            };
        }
        (builder, jacobians, constraints)
    }

    fn writeback_impulses(
        constraint: AnyJointConstraint<'_, Self>,
        mut joints: Vec<JointGraphEdge<Real>>,
    ) -> Vec<JointGraphEdge<Real>> {
        if let AnyJointConstraint::Generic(c) = constraint {
            joints[c.row.slot].weight = c.impulse;
        }
        joints
    }
}

/// A ball of a link above the ground, whose surface is the plane `y = 0`.
struct GroundContact {
    link: usize,
}

#[derive(Clone, Copy)]
struct ContactRow {
    jacobian: [Real; NUM_DOFS],
    response: [Real; NUM_DOFS],
    inv_lhs: Real,
    distance: Real,
    impulse: Real,
}

const NO_CONTACT: ContactRow = ContactRow {
    jacobian: [0.0; NUM_DOFS],
    response: [0.0; NUM_DOFS],
    inv_lhs: 0.0,
    distance: 0.0,
    impulse: 0.0,
};

impl ContactConstraintModel for Scene {
    type Manifold = GroundContact;
    type GenericContactConstraint = ContactRow;
    type GenericContactConstraintBuilder = usize;

    fn invalid_contact_constraint() -> ContactRow {
        NO_CONTACT
    }

    fn invalid_contact_builder() -> usize {
        usize::MAX
    }

    fn generate_contact(
        &self,
        _: &MultibodyJointSet<Real>,
        manifold_id: ManifoldRef,
        manifold: &GroundContact,
        _: usize,
        _: ContactRow,
        mut assembly: ContactAssembly<Real>,
    ) -> (usize, ContactRow, ContactAssembly<Real>) {
        let chain = self.chain.unwrap();
        let normal = Vector::new(0.0, 1.0, 0.0);
        let mut jacobian = [0.0; NUM_DOFS];
        for d in 0..NUM_DOFS {
            jacobian[d] = chain.jacobian(manifold.link)[d].dot(normal);
        }
        let response = solve(&chain.mass_matrix, jacobian);
        let mut lhs = 0.0;
        for d in 0..NUM_DOFS {
            lhs += jacobian[d] * response[d];
        }
        assembly.jacobian_id += NUM_DOFS;
        let height = self.bodies[chain.links[manifold.link]].translation.0[1];
        let constraint = ContactRow {
            jacobian,
            response,
            inv_lhs: 1.0 / lhs,
            distance: height - BALL_RADIUS,
            impulse: 0.0,
        };
        (manifold_id.0, constraint, assembly)
    }
}

struct World {
    scene: Scene,
    multibodies: MultibodyJointSet<Real>,
    solver: VelocitySolver<Scene>,
    joints: JointConstraintsSet<Scene>,
    contacts: ContactConstraintsSet<Scene>,
    has_ground: bool,
}

impl World {
    fn new() -> Self {
        World {
            scene: Scene {
                bodies: Vec::new(),
                chain: None,
                gravity: Vector::ZERO,
                dt: 1.0 / 64.0,
            },
            multibodies: MultibodyJointSet {
                rigid_body_links: Vec::new(),
                multibodies: Vec::new(),
            },
            solver: VelocitySolver {
                solver_bodies: Vec::new(),
                solver_vels_increment: Vec::new(),
                solver_gyro: Vec::new(),
                generic_solver_vels: Vec::new(),
                generic_solver_vels_increment: Vec::new(),
                multibody_roots: Vec::new(),
            },
            joints: JointConstraintsSet::new(),
            contacts: ContactConstraintsSet {
                generic_jacobians: Vec::new(),
                generic_velocity_constraints: Vec::new(),
                generic_velocity_constraints_builder: Vec::new(),
            },
            has_ground: false,
        }
    }

    fn insert_joint(&mut self, a: RigidBodyHandle, b: RigidBodyHandle, joint: Revolute) {
        let bodies = &self.scene.bodies;
        let velocities = vec![
            bodies[a.0].linvel.0[0],
            bodies[a.0].linvel.0[1],
            bodies[a.0].angvel,
            bodies[b.0].angvel - bodies[a.0].angvel,
        ];
        self.scene.chain = Some(Chain::assemble([a.0, b.0], bodies, joint));
        let index = MultibodyIndex(self.multibodies.multibodies.len());
        self.multibodies.multibodies.push(Some(Multibody {
            root_is_dynamic: true,
            solver_id: 0,
            velocities,
            accelerations: vec![0.0; NUM_DOFS],
        }));
        self.multibodies.rigid_body_links.resize(bodies.len(), None);
        self.multibodies.rigid_body_links[a.0] = Some(MultibodyLinkId { multibody: index, id: 0 });
        self.multibodies.rigid_body_links[b.0] = Some(MultibodyLinkId { multibody: index, id: 1 });
    }

    fn remove_joint(&mut self, index: MultibodyIndex) {
        self.scene.chain = None;
        self.multibodies.multibodies[index.0] = None;
        self.multibodies.rigid_body_links.clear();
    }

    fn velocities_mut(&mut self) -> &mut Vec<Real> {
        &mut self.multibodies.multibodies[0].as_mut().unwrap().velocities
    }

    fn motor_mut(&mut self) -> &mut Motor {
        self.scene.chain.as_mut().unwrap().joint.motor.as_mut().unwrap()
    }

    fn step(&mut self) {
        self.step_with_gravity(Vector::ZERO);
    }

    fn step_with_gravity(&mut self, gravity: Vector) {
        self.scene.gravity = gravity;
        let dt = self.scene.dt / NUM_SUBSTEPS as Real;
        let params = IntegrationParameters { dt };
        let island: Vec<RigidBodyHandle> = (0..self.scene.bodies.len())
            .map(RigidBodyHandle)
            .filter(|handle| self.scene.bodies[handle.0].dynamic)
            .collect();

        let scene = self.take_scene();
        self.scene = self.solver.init_solver_buffers_and_multibodies(
            &params,
            &island,
            scene,
            &mut self.multibodies,
        );
        let mut j_id = 0;
        self.joints.compute_generic_joint_constraints(
            &island,
            &self.scene,
            &self.multibodies,
            &[],
            &mut j_id,
        );

        for substep in 0..NUM_SUBSTEPS {
            let solver = &mut self.solver;
            for (vel, gain) in
                solver.generic_solver_vels.iter_mut().zip(&solver.generic_solver_vels_increment)
            {
                *vel += *gain;
            }
            self.derive_joint_constraints(&params);
            self.compute_contacts(&mut j_id);
            self.solve_constraints(&params, true);

            let scene = self.take_scene();
            self.scene = self.solver.integrate_multibody_positions(
                &params,
                substep + 1 == NUM_SUBSTEPS,
                scene,
                &mut self.multibodies,
            );
            self.integrate_rigid_bodies(&params);

            self.joints.update_multibody_coupled(
                &params,
                &self.scene,
                &self.multibodies,
                &self.solver.solver_bodies,
            );
            self.solve_constraints(&params, false);
        }

        for k in 0..self.solver.multibody_roots.len() {
            let index = self.solver.multibody_roots[k].multibody;
            let multibody = self.multibodies.multibodies[index.0].as_mut().unwrap();
            let base = multibody.solver_id as usize;
            multibody.velocities =
                self.solver.generic_solver_vels[base..base + NUM_DOFS].to_vec();
            let scene = std::mem::replace(&mut self.scene, empty_scene());
            self.scene = scene.update_velocities(index, multibody);
        }
        let written = self.written_impulses();
        assert_eq!(written.len(), 2);
    }

    /// The impulses of the motor and of the limits, as they are written back.
    fn written_impulses(&mut self) -> Vec<JointGraphEdge<Real>> {
        let mut written = vec![JointGraphEdge { weight: 0.0 }, JointGraphEdge { weight: 0.0 }];
        self.joints.writeback_impulses(&mut written);
        written
    }

    fn take_scene(&mut self) -> Scene {
        std::mem::replace(&mut self.scene, empty_scene())
    }

    /// Derives the joint constraints of a substep, with no impulse accumulated yet.
    fn derive_joint_constraints(&mut self, params: &IntegrationParameters<Real>) {
        let mut jacobians = std::mem::take(&mut self.joints.generic_jacobians);
        let mut constraints = std::mem::take(&mut self.joints.generic_velocity_constraints);
        for builder in &mut self.joints.generic_velocity_constraints_builder {
            if let GenericJointConstraintBuilder::Internal(builder) = builder {
                (_, jacobians, constraints) = self.scene.update_internal(
                    *builder,
                    params,
                    &self.multibodies,
                    jacobians,
                    constraints,
                );
            }
        }
        self.joints.generic_jacobians = jacobians;
        self.joints.generic_velocity_constraints = constraints;
    }

    fn compute_contacts(&mut self, jacobian_id: &mut usize) {
        if !self.has_ground {
            return;
        }
        self.contacts.compute_generic_constraints(
            &self.scene,
            &self.multibodies,
            &SolverContactGraph { generic_manifolds: vec![ManifoldRef(0), ManifoldRef(1)] },
            &ManifoldStore {
                manifolds: vec![GroundContact { link: 0 }, GroundContact { link: 1 }],
            },
            jacobian_id,
        );
    }

    fn solve_constraints(&mut self, params: &IntegrationParameters<Real>, use_bias: bool) {
        let vels = &mut self.solver.generic_solver_vels;
        for _ in 0..4 {
            let (_, constraints) = self.joints.iter_constraints_mut();
            for constraint in constraints {
                if let AnyJointConstraintMut::Generic(c) = constraint {
                    let rhs = if use_bias { c.row.rhs } else { c.row.rhs_wo_bias };
                    let wanted = c.impulse + c.row.inv_lhs * (rhs - vels[JOINT_DOF]);
                    let impulse = wanted.max(c.impulse_bounds[0]).min(c.impulse_bounds[1]);
                    for d in 0..NUM_DOFS {
                        vels[d] += c.row.response[d] * (impulse - c.impulse);
                    }
                    c.impulse = impulse;
                }
            }
            for c in &mut self.contacts.generic_velocity_constraints {
                let rhs = if c.distance > 0.0 {
                    -c.distance / params.dt
                } else if use_bias {
                    -0.2 * c.distance / params.dt
                } else {
                    0.0
                };
                let mut speed = 0.0;
                for d in 0..NUM_DOFS {
                    speed += c.jacobian[d] * vels[d];
                }
                let impulse = (c.impulse + c.inv_lhs * (rhs - speed)).max(0.0);
                for d in 0..NUM_DOFS {
                    vels[d] += c.response[d] * (impulse - c.impulse);
                }
                c.impulse = impulse;
            }
        }
    }

    fn integrate_rigid_bodies(&mut self, params: &IntegrationParameters<Real>) {
        for i in 0..self.scene.bodies.len() {
            let is_link = self.multibodies.rigid_body_link(RigidBodyHandle(i)).is_some();
            let gravity = self.scene.gravity;
            let body = &mut self.scene.bodies[i];
            if body.dynamic && !is_link {
                body.linvel = body.linvel.plus(gravity.scaled(params.dt));
                body.translation = body.translation.plus(body.linvel.scaled(params.dt));
                body.angle += body.angvel * params.dt;
            }
        }
    }

    fn momentum(&self) -> Vector {
        let mut total = Vector::ZERO;
        for body in &self.scene.bodies {
            if body.dynamic {
                total = total.plus(body.linvel.scaled(MASS));
            }
        }
        total
    }
}

fn empty_scene() -> Scene {
    Scene { bodies: Vec::new(), chain: None, gravity: Vector::ZERO, dt: 0.0 }
}

fn free_body(world: &mut World, pos: Vector) -> RigidBodyHandle {
    world.scene.bodies.push(Body {
        dynamic: true,
        translation: pos,
        angle: 0.0,
        linvel: Vector::ZERO,
        angvel: 0.0,
    });
    RigidBodyHandle(world.scene.bodies.len() - 1)
}

fn revolute() -> Revolute {
    Revolute {
        anchor1: Vector::new(0.5, 0.0, 0.0),
        anchor2: Vector::new(-0.5, 0.0, 0.0),
        limits: None,
        motor: None,
    }
}

/// Drives a 2-link floating multibody's revolute joint with a square-wave velocity motor and
/// reports the peak |p| over the run.
fn thrash_peak_momentum(limits: [Real; 2]) -> Real {
    let mut world = World::new();
    let a = free_body(&mut world, Vector::new(0.0, 0.0, 0.0));
    let b = free_body(&mut world, Vector::new(1.0, 0.0, 0.0));

    let mut joint = revolute();
    joint.limits = Some(limits);
    joint.motor = Some(Motor { velocity: 8.0, max_force: 200.0 });
    world.insert_joint(a, b, joint);

    let mut peak: Real = 0.0;
    let mut widest: Real = 0.0;
    for i in 0..256 {
        // Square-wave thrash: slam the joint into alternating limits.
        let dir = if (i / 24) % 2 == 0 { 8.0 } else { -8.0 };
        world.motor_mut().velocity = dir;

        world.step();
        peak = peak.max(world.momentum().length());
        widest = widest.max(world.scene.chain.unwrap().coords[JOINT_DOF].abs());
    }
    // The motor did drive the joint, as far as the limits let it.
    assert!(widest > 0.29);
    peak
}

/// No motor, no limit hits, no gravity: spin the joint dof and coast.
/// Exercises only the bias/coriolis force path and the integrator.
#[test]
fn airborne_coasting_conserves_momentum() {
    let mut world = World::new();
    let a = free_body(&mut world, Vector::new(0.0, 0.0, 0.0));
    let b = free_body(&mut world, Vector::new(1.0, 0.0, 0.0));
    world.insert_joint(a, b, revolute());

    // Step once so the multibody assembles, then set the joint dof velocity.
    world.step();
    let vels = world.velocities_mut();
    let ndofs = vels.len();
    vels[ndofs - 1] = 8.0; // the revolute dof

    // The contrived initial state has nonzero total momentum; physical
    // evolution must preserve it exactly, so the metric is drift from p(0).
    world.step();
    let p0 = world.momentum();
    let mut peak: Real = 0.0;
    for _ in 0..256 {
        world.step();
        peak = peak.max(world.momentum().minus(p0).length());
    }
    println!("coasting peak |dp| = {peak}");
    assert!(peak < 1.0e-3, "coasting peak |dp| = {peak}");
}

#[test]
fn airborne_motor_thrash_wide_limits_conserves_momentum() {
    let peak = thrash_peak_momentum([-100.0, 100.0]);
    println!("wide-limit peak |p| = {peak}");
    assert!(peak < 1.0e-3, "wide-limit peak |p| = {peak}");
}

#[test]
fn airborne_motor_thrash_hard_limits_conserves_momentum() {
    let peak = thrash_peak_momentum([-0.3, 0.3]);
    println!("hard-limit peak |p| = {peak}");
    assert!(peak < 1.0e-3, "hard-limit peak |p| = {peak}");
}

/// dt-scaling probe: same 4-second coast at dt = 1/64, 1/128, 1/256.
/// Discretization error shrinks with dt; a structural bug does not.
#[test]
fn coasting_drift_dt_scaling() {
    for (dt, steps) in [(1.0 / 64.0, 256), (1.0 / 128.0, 512), (1.0 / 256.0, 1024)] {
        let mut world = World::new();
        world.scene.dt = dt;
        let a = free_body(&mut world, Vector::new(0.0, 0.0, 0.0));
        let b = free_body(&mut world, Vector::new(1.0, 0.0, 0.0));
        world.insert_joint(a, b, revolute());
        world.step();
        let vels = world.velocities_mut();
        let ndofs = vels.len();
        vels[ndofs - 1] = 8.0;
        world.step();
        let p0 = world.momentum();
        let mut peak: Real = 0.0;
        for _ in 0..steps {
            world.step();
            peak = peak.max(world.momentum().minus(p0).length());
        }
        println!("dt = {dt}: coasting peak |dp| = {peak}");
        assert!(peak < 1.0e-3, "dt = {dt}: coasting peak |dp| = {peak}");
    }
}

/// With gravity on and the joint thrashing, the COM must obey dp = m*g*dt
/// exactly: the ledger must credit external forces, not suppress them.
#[test]
fn airborne_thrash_under_gravity_obeys_mg_dt() {
    let gravity = Vector::new(0.0, -9.81, 0.0);
    let mut world = World::new();
    let a = free_body(&mut world, Vector::new(0.0, 0.0, 0.0));
    let b = free_body(&mut world, Vector::new(1.0, 0.0, 0.0));
    let mut joint = revolute();
    joint.limits = Some([-0.3, 0.3]);
    joint.motor = Some(Motor { velocity: 8.0, max_force: 200.0 });
    world.insert_joint(a, b, joint);

    let mut worst: Real = 0.0;
    for i in 0..256 {
        let dir = if (i / 24) % 2 == 0 { 8.0 } else { -8.0 };
        world.motor_mut().velocity = dir;
        world.step_with_gravity(gravity);
        let t = world.scene.dt * (i + 1) as Real;
        let expected = gravity.scaled(2.0).scaled(t); // m_total = 2
        worst = worst.max(world.momentum().minus(expected).length());
    }
    println!("gravity thrash worst |p - m*g*t| = {worst}");
    assert!(worst < 1.0e-3, "worst |p - m*g*t| = {worst}");
}

/// A multibody dropped onto ground must stay bounded and keep interacting with
/// the contact normally.
#[test]
fn multibody_on_ground_stays_bounded() {
    let gravity = Vector::new(0.0, -9.81, 0.0);
    let mut world = World::new();
    world.has_ground = true;

    let a = free_body(&mut world, Vector::new(0.0, 1.0, 0.0));
    let b = free_body(&mut world, Vector::new(1.0, 1.0, 0.0));
    world.insert_joint(a, b, revolute());

    let mut sum_p = 0.0;
    let mut n = 0;
    for i in 0..512 {
        world.step_with_gravity(gravity);
        let ya = world.scene.bodies[a.0].translation.0[1];
        assert!(ya.is_finite() && (-0.5..2.0).contains(&ya), "ya = {ya}");
        if i >= 256 {
            sum_p += world.momentum().length();
            n += 1;
        }
    }
    let mean_p = sum_p / n as Real;
    println!("windowed mean |p| = {mean_p:.4}");
    assert!(mean_p < 8.0, "windowed mean |p| = {mean_p}");
}

/// Inserting a multibody joint between bodies that already stepped must still assemble the
/// multibody.
#[test]
fn multibody_joint_insertion_after_settled_step_assembles() {
    let mut world = World::new();
    let a = free_body(&mut world, Vector::new(0.0, 0.0, 0.0));
    let b = free_body(&mut world, Vector::new(1.0, 0.0, 0.0));

    for _ in 0..3 {
        world.step();
    }
    assert!(world.solver.multibody_roots.is_empty());

    world.insert_joint(a, b, revolute());
    for _ in 0..8 {
        world.step();
    }
    assert_eq!(world.solver.multibody_roots.len(), 1);
    assert!(world.scene.bodies[a.0].translation.is_finite());

    // And removal must likewise re-assemble the splits.
    let handle = world.multibodies.rigid_body_link(b).copied().map(|link| link.multibody);
    assert!(handle.is_some());
    world.remove_joint(handle.unwrap());
    for _ in 0..8 {
        world.step();
    }
    assert!(world.solver.multibody_roots.is_empty());
    assert!(world.scene.bodies[a.0].translation.is_finite());
}

/// A world with a driven joint, after some steps.
fn driven_world() -> World {
    let mut world = World::new();
    let a = free_body(&mut world, Vector::new(0.0, 0.0, 0.0));
    let b = free_body(&mut world, Vector::new(1.0, 0.0, 0.0));
    let mut joint = revolute();
    joint.limits = Some([-0.3, 0.3]);
    joint.motor = Some(Motor { velocity: 8.0, max_force: 200.0 });
    world.insert_joint(a, b, joint);
    for _ in 0..20 {
        world.step();
    }
    world
}

/// After a substep, the last one or not, the links are where the coordinates put them, and move
/// with the final velocities.
#[test]
fn links_fit_the_coordinates_after_a_substep() {
    for is_last_substep in [false, true] {
        let mut world = driven_world();
        world.solver.generic_solver_vels = vec![0.3, -0.2, 1.5, 4.0];
        let params = IntegrationParameters { dt: 0.01 };
        let scene = world.take_scene();
        world.scene = world.solver.integrate_multibody_positions(
            &params,
            is_last_substep,
            scene,
            &mut world.multibodies,
        );
        let chain = world.scene.chain.unwrap();
        let velocities = world.velocities_mut().clone();
        let root = Vector::new(chain.coords[0], chain.coords[1], 0.0);
        let arm1 = rotated(chain.joint.anchor1, chain.coords[2]);
        let arm2 = rotated(chain.joint.anchor2, chain.coords[2] + chain.coords[3]);
        let second = root.plus(arm1).minus(arm2);
        let bodies = &world.scene.bodies;
        assert!(bodies[0].translation.minus(root).length() < 1.0e-5);
        assert!(bodies[1].translation.minus(second).length() < 1.0e-5);
        assert!(bodies[0].linvel.minus(chain.linvel(0, &velocities)).length() < 1.0e-5);
        assert!(bodies[1].linvel.minus(chain.linvel(1, &velocities)).length() < 1.0e-5);
        assert_eq!(world.solver.generic_solver_vels, velocities);
    }
}

#[test]
fn writing_back_twice_stores_the_same_impulses() {
    let mut world = driven_world();
    let mut once = world.written_impulses();
    let first: Vec<Real> = once.iter().map(|joint| joint.weight).collect();
    assert!(first.iter().any(|impulse| *impulse != 0.0));
    world.joints.writeback_impulses(&mut once);
    let second: Vec<Real> = once.iter().map(|joint| joint.weight).collect();
    assert_eq!(first, second);
}
