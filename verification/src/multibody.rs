//! The multibodies as the solver sees them: which rigid body is a link of which multibody, and
//! the generalized coordinates of each multibody.

use vstd::prelude::*;

verus! {

/// Identifies a rigid body.
#[derive(Clone, Copy, Debug, PartialEq, Eq, Structural)]
pub struct RigidBodyHandle(pub usize);

/// Identifies a multibody.
#[derive(Clone, Copy, Debug, PartialEq, Eq, Structural)]
pub struct MultibodyIndex(pub usize);

/// Identifies a link: the multibody it belongs to, and its position there. Link 0 is the root.
#[derive(Clone, Copy, Debug, PartialEq, Eq, Structural)]
pub struct MultibodyLinkId {
    pub multibody: MultibodyIndex,
    pub id: usize,
}

/// The parameters of one integration step.
pub struct IntegrationParameters<R> {
    /// The length of the step.
    pub dt: R,
}

/// The generalized state of one multibody.
pub struct Multibody<R> {
    /// Whether the root link moves. A multibody whose root is fixed starts at its second link.
    pub root_is_dynamic: bool,
    /// Where the multibody's degrees of freedom start in the generic solver vectors.
    pub solver_id: u32,
    /// The generalized velocities, one for each degree of freedom.
    pub velocities: Vec<R>,
    /// The generalized accelerations, one for each degree of freedom.
    pub accelerations: Vec<R>,
}

impl<R> Multibody<R> {
    /// The number of degrees of freedom.
    pub open spec fn dofs(&self) -> nat {
        self.velocities@.len()
    }

    /// The number of degrees of freedom.
    pub fn ndofs(&self) -> (n: usize)
        ensures
            n == self.dofs(),
            n == self.velocities@.len(),
    {
        self.velocities.len()
    }

    /// Whether a link stands for the whole multibody in the solver: the root, or the first link
    /// after a root that does not move.
    pub open spec fn starts_at(&self, link: MultibodyLinkId) -> bool {
        link.id == 0 || link.id == 1 && !self.root_is_dynamic
    }

    /// Whether a link stands for the whole multibody in the solver: the root, or the first link
    /// after a root that does not move.
    pub fn is_started_by(&self, link: MultibodyLinkId) -> (starts: bool)
        ensures
            starts == self.starts_at(link),
            starts <==> link.id == 0 || link.id == 1 && !self.root_is_dynamic,
    {
        link.id == 0 || link.id == 1 && !self.root_is_dynamic
    }
}

/// All the multibodies, and the links that rigid bodies are.
pub struct MultibodyJointSet<R> {
    /// For each rigid body, the link that it is.
    pub rigid_body_links: Vec<Option<MultibodyLinkId>>,
    /// The multibodies. A slot whose multibody was removed is empty.
    pub multibodies: Vec<Option<Multibody<R>>>,
}

/// Whether a multibody stands at an index.
pub open spec fn contains_multibody<R>(
    multibodies: Seq<Option<Multibody<R>>>,
    index: MultibodyIndex,
) -> bool {
    index.0 < multibodies.len() && multibodies[index.0 as int] is Some
}

/// The multibody at an index.
pub open spec fn multibody_at<R>(
    multibodies: Seq<Option<Multibody<R>>>,
    index: MultibodyIndex,
) -> Multibody<R> {
    multibodies[index.0 as int]->0
}

impl<R> MultibodyJointSet<R> {
    /// The link that a rigid body is, if any.
    pub open spec fn link_of(&self, handle: RigidBodyHandle) -> Option<MultibodyLinkId> {
        if handle.0 < self.rigid_body_links@.len() {
            self.rigid_body_links@[handle.0 as int]
        } else {
            None
        }
    }

    /// The link that a rigid body is, if any.
    pub fn rigid_body_link(&self, handle: RigidBodyHandle) -> (link: Option<&MultibodyLinkId>)
        ensures
            link is Some <==> self.link_of(handle) is Some,
            link matches Some(l) ==> self.link_of(handle) == Some(*l),
            link is Some <==> handle.0 < self.rigid_body_links@.len()
                && self.rigid_body_links@[handle.0 as int] is Some,
            link matches Some(l) ==> self.rigid_body_links@[handle.0 as int] == Some(*l),
    {
        if handle.0 < self.rigid_body_links.len() {
            self.rigid_body_links[handle.0].as_ref()
        } else {
            None
        }
    }

    /// The multibody at an index, to be changed in place. No other multibody and no link changes.
    pub fn get_multibody_mut_internal(&mut self, index: MultibodyIndex) -> (multibody: Option<
        &mut Multibody<R>,
    >)
        ensures
            multibody is Some <==> contains_multibody(old(self).multibodies@, index),
            multibody is Some <==> index.0 < old(self).multibodies@.len()
                && old(self).multibodies@[index.0 as int] is Some,
            multibody matches Some(m) ==> old(self).multibodies@[index.0 as int] == Some(*m),
            multibody matches Some(m) ==> {
                &&& *m == multibody_at(old(self).multibodies@, index)
                &&& final(self).multibodies@ == old(self).multibodies@.update(
                    index.0 as int,
                    Some(*final(m)),
                )
            },
            multibody is None ==> final(self).multibodies@ == old(self).multibodies@,
            final(self).rigid_body_links == old(self).rigid_body_links,
    {
        if index.0 < self.multibodies.len() {
            self.multibodies[index.0].as_mut()
        } else {
            None
        }
    }
}

} // verus!
