//! The multibody part of a velocity-based constraint solver.
//!
//! [`velocity_solver::VelocitySolver`] lays the degrees of freedom of multibodies out in the
//! generic solver vectors and integrates them over substeps.
//! [`joint_constraints_set::JointConstraintsSet`] and
//! [`contact_constraints_set::ContactConstraintsSet`] hold the constraints that touch them. The
//! physics comes in through [`dynamics::MultibodyDynamics`] and the traits that extend it.

pub mod buffers;
pub mod consistency_laws;
pub mod contact_constraints_set;
pub mod contact_laws;
pub mod dynamics;
pub mod joint_constraints_set;
pub mod joint_laws;
pub mod momentum_laws;
pub mod multibody;
pub mod ranges;
pub mod solver_laws;
pub mod velocity_solver;
