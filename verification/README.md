# multibody_solver

The multibody part of a velocity-based physics solver, verified with Verus.

A multibody is an articulated body in reduced coordinates: its links share a vector of generalized
velocities. Over a step the solver

- collects the multibodies of an island and lays their degrees of freedom out, one after the
  other, in the generic solver vectors;
- generates the joint and contact constraints that touch a multibody;
- integrates the multibodies over each substep, keeps a ledger of their linear momentum, and
  reconciles them with it;
- derives the constraints anew from the positions that result, and keeps the impulses that were
  already applied.

The physics itself, that is floating point numbers, kinematics, mass matrices and jacobians, comes
in through three traits: `MultibodyDynamics`, `JointConstraintModel` and `ContactConstraintModel`.
Their methods promise nothing. The contracts of the solver say in which order they are called and
what goes into each call, and what becomes of what they return. They hold of every implementation,
with one thing asked: initialization and integration require that the generalized vectors which
the dynamics return have one row for each degree of freedom.

## Layout

- `src/multibody.rs`: links, multibodies, and the set of them
- `src/buffers.rs`: solver buffers, padding to SIMD lanes, rows of generic vectors
- `src/dynamics.rs`: the dynamics, and the ledger of linear momentum
- `src/velocity_solver.rs`: initialization and position integration
- `src/joint_constraints_set.rs`, `src/contact_constraints_set.rs`: the constraint sets
- `src/ranges.rs`: ranges that items reserve, one after the other
- `src/solver_laws.rs`, `src/momentum_laws.rs`, `src/consistency_laws.rs`, `src/joint_laws.rs`,
  `src/contact_laws.rs`: what holds of the solver as a whole
- `app/`: the solver at the precision of the math library, with tested arguments
- `tests/`: exact tests on whole numbers, and a simulation of a floating two-link body
