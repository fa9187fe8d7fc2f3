//! The serial chain: the joints on the path from a root of a joint tree down
//! to its end-effector, and the cache of their world poses.

use vstd::prelude::*;
use crate::math_utils::{Pose, Vec3};
use crate::node::{
    connect_outcome, connected, forest_wf, is_first_child_path, lemma_reaches_step_up,
    lemma_same_parents_same_reach, link, linked, occurs_as_child, reaches, ConstructionError,
    JointKind, JointTree, SpecNode,
};

verus! {

/// What is known of one joint of a chain.
#[derive(Clone, Copy, Debug, PartialEq, Eq, Structural)]
pub struct Joint {
    pub kind: JointKind,
    pub local_offset: Vec3,
    pub joint_value: i64,
}

/// What a joint is built from.
#[derive(Clone, Copy, Debug, PartialEq, Eq, Structural)]
pub struct JointSpec {
    pub kind: JointKind,
    pub local_offset: Vec3,
}

/// The joint that a node of a tree stands for.
pub open spec fn joint_of(node: SpecNode) -> Joint {
    Joint { kind: node.kind, local_offset: node.local_offset, joint_value: node.joint_value }
}

/// The joints of the nodes on `path`, in the order of `path`.
pub open spec fn joints_along(s: Seq<SpecNode>, path: Seq<usize>) -> Seq<Joint> {
    Seq::new(path.len(), |i: int| joint_of(s[path[i] as int]))
}

/// `t` is `s` but for the angles of its nodes: it has the same nodes, and
/// each has its kind, its offset, its parent and its children as in `s`.
pub open spec fn same_but_angles(s: Seq<SpecNode>, t: Seq<SpecNode>) -> bool {
    &&& t.len() == s.len()
    &&& forall|i: int|
        0 <= i < s.len() ==> (#[trigger] t[i]).kind == s[i].kind && t[i].local_offset
            == s[i].local_offset && t[i].parent == s[i].parent && t[i].children == s[i].children
}

/// The cached poses that are valid come first: a joint's pose is valid only
/// if the pose of every joint before it is.
pub open spec fn valid_prefix(world: Seq<Option<Pose>>) -> bool {
    forall|i: int, j: int| 0 <= i < j < world.len() && world[j] is Some ==> world[i] is Some
}

/// `world` with the poses from joint `first` on forgotten.
pub open spec fn invalidated_from(world: Seq<Option<Pose>>, first: int) -> Seq<Option<Pose>> {
    Seq::new(
        world.len(),
        |i: int|
            if i >= first {
                None
            } else {
                world[i]
            },
    )
}

/// `world` with the poses from joint `first` on replaced by `poses`.
pub open spec fn refreshed_from(world: Seq<Option<Pose>>, first: int, poses: Seq<Pose>) -> Seq<
    Option<Pose>,
> {
    Seq::new(
        world.len(),
        |i: int|
            if i >= first {
                Some(poses[i - first])
            } else {
                world[i]
            },
    )
}

/// The tree of the joints `specs` with the first `edges` of them connected in
/// series: node `i` is built from `specs[i]` with angle zero, and node `i + 1`
/// is the only child of node `i` for every `i` below `edges`.
pub open spec fn series_upto(specs: Seq<JointSpec>, edges: int) -> Seq<SpecNode> {
    Seq::new(
        specs.len(),
        |i: int|
            SpecNode {
                kind: specs[i].kind,
                local_offset: specs[i].local_offset,
                joint_value: 0,
                parent: if 1 <= i <= edges {
                    Some((i - 1) as usize)
                } else {
                    None
                },
                children: if i < edges {
                    seq![(i + 1) as usize]
                } else {
                    Seq::empty()
                },
            },
    )
}

/// The tree of the joints `specs` connected in series, the first as the root.
pub open spec fn series_tree(specs: Seq<JointSpec>) -> Seq<SpecNode> {
    series_upto(specs, specs.len() - 1)
}

/// The indices from 0 up to, but not including, `n`.
pub open spec fn indices(n: nat) -> Seq<usize> {
    Seq::new(n, |i: int| i as usize)
}

/// Connecting the unconnected nodes along the indices in their order puts
/// them in series.
proof fn lemma_linked_in_series(specs: Seq<JointSpec>, k: nat)
    requires
        k < specs.len() <= usize::MAX,
    ensures
        linked(series_upto(specs, 0), indices(specs.len()), k) == series_upto(specs, k as int),
    decreases k,
{
    if k > 0 {
        lemma_linked_in_series(specs, (k - 1) as nat);
        let before = series_upto(specs, k - 1);
        let after = link(before, k - 1, k as int);
        let goal = series_upto(specs, k as int);
        assert(indices(specs.len())[k - 1] == (k - 1) as usize);
        assert(indices(specs.len())[k as int] == k as usize);
        assert forall|i: int| 0 <= i < specs.len() implies after[i] == goal[i] by {
            assert(after[i].children =~= goal[i].children);
        }
        assert(after =~= goal);
    }
}

/// In a tree of joints in series, the path along first children visits the
/// nodes in the order of their indices.
proof fn lemma_series_path_at(specs: Seq<JointSpec>, path: Seq<usize>, i: int)
    requires
        is_first_child_path(series_tree(specs), 0, path),
        0 <= i < path.len(),
    ensures
        path[i] == i,
    decreases i,
{
    if i > 0 {
        lemma_series_path_at(specs, path, i - 1);
        let t = series_tree(specs);
        assert(path[i - 1] < t.len());
        assert(path[i] == t[path[i - 1] as int].children[0]);
    }
}

/// A serial chain of joints with a cache of their world poses.
///
/// The chain owns the tree it was cut from. Its joints are numbered from the
/// root, which is joint 0, to the end-effector.
#[derive(Clone, Debug)]
pub struct Chain {
    tree: JointTree,
    root: usize,
    serial_path: Vec<usize>,
    world_transforms: Vec<Option<Pose>>,
}

impl View for Chain {
    type V = Seq<Joint>;

    closed spec fn view(&self) -> Seq<Joint> {
        joints_along(self.tree@, self.serial_path@)
    }
}

impl Chain {
    /// The tree that the chain owns.
    pub closed spec fn tree(&self) -> Seq<SpecNode> {
        self.tree@
    }

    /// The index, in the tree, of the chain's root.
    pub closed spec fn root(&self) -> usize {
        self.root
    }

    /// The indices, in the tree, of the chain's joints.
    pub closed spec fn path(&self) -> Seq<usize> {
        self.serial_path@
    }

    /// The cached world poses, one for each joint; `None` where the cache is
    /// not valid.
    pub closed spec fn world(&self) -> Seq<Option<Pose>> {
        self.world_transforms@
    }

    /// The chain's invariant.
    pub closed spec fn wf(&self) -> bool {
        &&& self.tree.wf()
        &&& is_first_child_path(self.tree@, self.root as int, self.serial_path@)
        &&& self.serial_path@.no_duplicates()
        &&& forall|i: int|
            0 <= i < self.serial_path@.len() ==> reaches(
                self.tree@,
                #[trigger] self.serial_path@[i] as int,
                self.root as int,
            )
        &&& self.world_transforms@.len() == self.serial_path@.len()
        &&& valid_prefix(self.world_transforms@)
    }

    /// What the invariant says of the chain's parts: its joints lie on the
    /// path from the root along first children, which visits no node twice
    /// and on which the root is an ancestor of every node; and the cached
    /// poses that are valid come first.
    pub proof fn lemma_wf(&self)
        requires
            self.wf(),
        ensures
            forest_wf(self.tree()),
            self.root() < self.tree().len(),
            is_first_child_path(self.tree(), self.root() as int, self.path()),
            self.path().no_duplicates(),
            forall|i: int|
                0 <= i < self.path().len() ==> reaches(
                    self.tree(),
                    #[trigger] self.path()[i] as int,
                    self.root() as int,
                ),
            self@ == joints_along(self.tree(), self.path()),
            self@.len() == self.path().len(),
            self@.len() >= 1,
            self.world().len() == self@.len(),
            valid_prefix(self.world()),
    {
    }

    /// Cuts the chain that starts at `root` out of `tree`: it follows first
    /// children down to a node without children. No world pose is valid yet.
    pub fn from_root(tree: JointTree, root: usize) -> (r: Result<Chain, ConstructionError>)
        requires
            tree.wf(),
        ensures
            root >= tree@.len() ==> r == Err::<Chain, ConstructionError>(
                ConstructionError::UnknownNode,
            ),
            root < tree@.len() ==> r is Ok,
            r matches Ok(chain) ==> {
                &&& chain.wf()
                &&& chain.tree() == tree@
                &&& chain.root() == root
                &&& is_first_child_path(tree@, root as int, chain.path())
                &&& chain.path().no_duplicates()
                &&& forall|i: int|
                    0 <= i < chain.path().len() ==> reaches(
                        tree@,
                        #[trigger] chain.path()[i] as int,
                        root as int,
                    )
                &&& chain@ == joints_along(tree@, chain.path())
                &&& chain.world() == Seq::new(chain@.len(), |i: int| None::<Pose>)
            },
    {
        match tree.serial_path(root) {
            Err(e) => Err(e),
            Ok(serial_path) => {
                let count = serial_path.len();
                let mut world_transforms: Vec<Option<Pose>> = Vec::new();
                let mut filled: usize = 0;
                while filled < count
                    invariant
                        filled <= count,
                        world_transforms@.len() == filled,
                        forall|i: int| 0 <= i < filled ==> #[trigger] world_transforms@[i] is None,
                    decreases count - filled,
                {
                    world_transforms.push(None);
                    filled += 1;
                }
                let chain = Chain { tree, root, serial_path, world_transforms };
                proof {
                    assert(chain.world() =~= Seq::new(chain@.len(), |i: int| None::<Pose>));
                }
                Ok(chain)
            },
        }
    }

    /// The number of joints.
    pub fn len(&self) -> (n: usize)
        requires
            self.wf(),
        ensures
            n == self@.len(),
            n >= 1,
    {
        self.serial_path.len()
    }

    /// The joint at `index`, counted from the root.
    pub fn joint(&self, index: usize) -> (joint: Option<Joint>)
        requires
            self.wf(),
        ensures
            joint == (if index < self@.len() {
                Some(self@[index as int])
            } else {
                None
            }),
    {
        if index >= self.serial_path.len() {
            return None;
        }
        match self.tree.node(self.serial_path[index]) {
            Some(node) => Some(
                Joint {
                    kind: node.kind(),
                    local_offset: node.local_offset(),
                    joint_value: node.joint_value(),
                },
            ),
            None => None,
        }
    }

    /// Sets the angle of the rotational joint at `index` and forgets the
    /// world poses of that joint and of all joints after it.
    ///
    /// A fixed joint has no angle, and an index past the end names no joint:
    /// then nothing changes and the result is `false`.
    pub fn set_joint_value(&mut self, index: usize, value: i64) -> (changed: bool)
        requires
            old(self).wf(),
        ensures
            final(self).wf(),
            final(self).path() == old(self).path(),
            final(self).root() == old(self).root(),
            same_but_angles(old(self).tree(), final(self).tree()),
            changed <==> index < old(self)@.len() && old(self)@[index as int].kind
                is Rotational,
            changed ==> final(self)@ == old(self)@.update(
                index as int,
                Joint { joint_value: value, ..old(self)@[index as int] },
            ) && final(self).world() == invalidated_from(old(self).world(), index as int)
                && final(self).tree() == old(self).tree().update(
                old(self).path()[index as int] as int,
                SpecNode {
                    joint_value: value,
                    ..old(self).tree()[old(self).path()[index as int] as int]
                },
            ),
            !changed ==> final(self)@ == old(self)@ && final(self).world() == old(self).world()
                && final(self).tree() == old(self).tree(),
    {
        if index >= self.serial_path.len() {
            return false;
        }
        let at = self.serial_path[index];
        let rotational = match self.tree.node(at) {
            Some(node) => match node.kind() {
                JointKind::Rotational { .. } => true,
                JointKind::Fixed => false,
            },
            None => false,
        };
        if !rotational {
            return false;
        }
        let ghost joints = self@;
        let ghost world = self.world_transforms@;
        let ghost before = self.tree@;
        self.tree.set_joint_value(at, value);
        let ghost after = self.tree@;
        let count = self.world_transforms.len();
        let mut i: usize = index;
        while i < count
            invariant
                index <= i <= count,
                count == world.len(),
                self.world_transforms@.len() == count,
                self.tree.wf(),
                self.tree@ == after,
                self.serial_path == old(self).serial_path,
                self.root == old(self).root,
                forall|j: int| 0 <= j < index ==> self.world_transforms@[j] == world[j],
                forall|j: int| index <= j < i ==> self.world_transforms@[j] is None,
                forall|j: int| i <= j < count ==> self.world_transforms@[j] == world[j],
            decreases count - i,
        {
            self.world_transforms.set(i, None);
            i += 1;
        }
        proof {
            assert(self.world_transforms@ =~= invalidated_from(world, index as int));
            assert forall|i: int| 0 <= i < after.len() implies (#[trigger] after[i]).children
                == before[i].children by {}
            assert(is_first_child_path(after, self.root as int, self.serial_path@));
            assert forall|i: int| 0 <= i < self.serial_path@.len() implies reaches(
                after,
                #[trigger] self.serial_path@[i] as int,
                self.root as int,
            ) by {
                lemma_same_parents_same_reach(
                    before,
                    after,
                    self.serial_path@[i] as int,
                    self.root as int,
                );
            }
            assert(self@ =~= joints.update(
                index as int,
                Joint { joint_value: value, ..joints[index as int] },
            ));
        }
        true
    }

    /// The cached world pose of the joint at `index`, if it is valid.
    pub fn world_transform(&self, index: usize) -> (pose: Option<Pose>)
        requires
            self.wf(),
        ensures
            pose == (if index < self@.len() {
                self.world()[index as int]
            } else {
                None
            }),
    {
        if index < self.world_transforms.len() {
            self.world_transforms[index]
        } else {
            None
        }
    }

    /// The number of joints, counted from the root, whose cached world pose
    /// is valid.
    pub fn valid_world_transforms(&self) -> (count: usize)
        requires
            self.wf(),
        ensures
            count <= self@.len(),
            forall|i: int| 0 <= i < count ==> self.world()[i] is Some,
            forall|i: int| count <= i < self@.len() ==> self.world()[i] is None,
    {
        let n = self.world_transforms.len();
        let mut count: usize = 0;
        while count < n && self.world_transforms[count].is_some()
            invariant
                count <= n,
                n == self.world_transforms@.len(),
                forall|i: int| 0 <= i < count ==> self.world_transforms@[i] is Some,
            decreases n - count,
        {
            count += 1;
        }
        count
    }

    /// Takes over the world poses of the joints from `first` on, which the
    /// caller has composed from the joint values as they are now.
    ///
    /// A pose rests on the pose of the joint before it. So the poses are
    /// taken only if there is exactly one for each joint from `first` on and
    /// the pose of every joint before `first` is valid. Otherwise nothing
    /// changes and the result is `false`.
    pub fn update_world_transforms_from(&mut self, first: usize, poses: &Vec<Pose>) -> (taken:
        bool)
        requires
            old(self).wf(),
        ensures
            final(self).wf(),
            final(self)@ == old(self)@,
            final(self).tree() == old(self).tree(),
            final(self).path() == old(self).path(),
            final(self).root() == old(self).root(),
            taken <==> first <= old(self)@.len() && poses@.len() == old(self)@.len() - first
                && forall|i: int| 0 <= i < first ==> old(self).world()[i] is Some,
            taken ==> final(self).world() == refreshed_from(
                old(self).world(),
                first as int,
                poses@,
            ),
            !taken ==> final(self).world() == old(self).world(),
    {
        let n = self.world_transforms.len();
        if first > n || poses.len() != n - first {
            return false;
        }
        let valid = self.valid_world_transforms();
        if valid < first {
            proof {
                assert(self.world()[valid as int] is None);
            }
            return false;
        }
        let ghost world = self.world_transforms@;
        let mut i: usize = first;
        while i < n
            invariant
                first <= i <= n,
                n == world.len(),
                poses@.len() == n - first,
                self.world_transforms@.len() == n,
                self.tree == old(self).tree,
                self.serial_path == old(self).serial_path,
                self.root == old(self).root,
                forall|j: int| 0 <= j < first ==> self.world_transforms@[j] == world[j],
                forall|j: int| first <= j < i ==> self.world_transforms@[j] == Some(poses@[j - first]),
                forall|j: int| i <= j < n ==> self.world_transforms@[j] == world[j],
            decreases n - i,
        {
            self.world_transforms.set(i, Some(poses[i - first]));
            i += 1;
        }
        proof {
            assert(self.world_transforms@ =~= refreshed_from(world, first as int, poses@));
        }
        true
    }

    /// Takes over the world poses of all joints, which the caller has
    /// composed, root first, from the joint values as they are now.
    ///
    /// If `poses` does not hold one pose for each joint, nothing changes and
    /// the result is `false`.
    pub fn update_world_transforms(&mut self, poses: &Vec<Pose>) -> (taken: bool)
        requires
            old(self).wf(),
        ensures
            final(self).wf(),
            final(self)@ == old(self)@,
            final(self).tree() == old(self).tree(),
            final(self).path() == old(self).path(),
            final(self).root() == old(self).root(),
            taken <==> poses@.len() == old(self)@.len(),
            taken ==> final(self).world() == poses@.map_values(|pose: Pose| Some(pose)),
            !taken ==> final(self).world() == old(self).world(),
    {
        let taken = self.update_world_transforms_from(0, poses);
        proof {
            if taken {
                assert(self.world() =~= poses@.map_values(|pose: Pose| Some(pose)));
            }
        }
        taken
    }
}

/// Builds the chain of the joints `joint_specs` connected in series: the
/// first is the root, the last the end-effector, and every angle is zero.
///
/// A chain has at least one joint: from no joint none is built.
pub fn build_chain(joint_specs: &Vec<JointSpec>) -> (r: Result<Chain, ConstructionError>)
    ensures
        joint_specs@.len() == 0 ==> r == Err::<Chain, ConstructionError>(
            ConstructionError::NoJoints,
        ),
        joint_specs@.len() > 0 ==> r is Ok,
        r matches Ok(chain) ==> {
            &&& chain.wf()
            &&& chain.tree() == series_tree(joint_specs@)
            &&& chain.root() == 0
            &&& chain.path() == indices(joint_specs@.len())
            &&& chain@ == joint_specs@.map_values(
                |spec: JointSpec|
                    Joint { kind: spec.kind, local_offset: spec.local_offset, joint_value: 0 },
            )
            &&& chain.world() == Seq::new(joint_specs@.len(), |i: int| None::<Pose>)
        },
{
    let n = joint_specs.len();
    if n == 0 {
        return Err(ConstructionError::NoJoints);
    }
    let ghost specs = joint_specs@;
    let mut tree = JointTree::new();
    let mut path: Vec<usize> = Vec::new();
    let mut i: usize = 0;
    while i < n
        invariant
            i <= n,
            n == specs.len(),
            specs == joint_specs@,
            tree.wf(),
            tree@ == series_upto(specs.take(i as int), 0),
            path@ == indices(i as nat),
        decreases n - i,
    {
        let spec = joint_specs[i];
        let ghost before = tree@;
        let index = tree.add_node(spec.kind, spec.local_offset);
        path.push(index);
        proof {
            assert(specs.take(i + 1) =~= specs.take(i as int).push(spec));
            assert forall|j: int| 0 <= j <= i implies tree@[j] == series_upto(
                specs.take(i + 1),
                0,
            )[j] by {
                if j < i {
                    assert(before[j] == series_upto(specs.take(i as int), 0)[j]);
                }
            }
            assert(tree@ =~= series_upto(specs.take(i + 1), 0));
            assert(path@ =~= indices((i + 1) as nat));
        }
        i += 1;
    }
    proof {
        assert(specs.take(n as int) =~= specs);
        let s = tree@;
        assert forall|j: int| 1 <= j < path@.len() implies !reaches(
            s,
            path@[0] as int,
            #[trigger] path@[j] as int,
        ) by {
            if reaches(s, 0, j) {
                lemma_reaches_step_up(s, 0, j);
            }
        }
        assert forall|j: int| 1 <= j < path@.len() implies !occurs_as_child(
            path@,
            j,
            #[trigger] path@[j],
        ) by {
            if occurs_as_child(path@, j, path@[j]) {
                let at = choose|at: int| 1 <= at < j && path@[at] == path@[j];
                assert(false);
            }
        }
        assert(connect_outcome(s, path@) == Ok::<(), ConstructionError>(()));
        if n >= 2 {
            lemma_linked_in_series(specs, (n - 1) as nat);
        }
        assert(connected(s, path@) == series_tree(specs));
    }
    match tree.connect(&path) {
        Err(e) => {
            return Err(e);
        },
        Ok(()) => {},
    }
    match Chain::from_root(tree, 0) {
        Err(e) => Err(e),
        Ok(chain) => {
            proof {
                let found = chain.path();
                let t = series_tree(specs);
                assert forall|j: int| 0 <= j < found.len() implies found[j] == j by {
                    lemma_series_path_at(specs, found, j);
                }
                assert(found[found.len() - 1] < t.len());
                assert(found.len() == n) by {
                    let last = found.len() - 1;
                    assert(found[last] == last);
                    assert(t[last].children.len() == 0);
                    if last < n - 1 {
                        assert(t[last].children =~= seq![(last + 1) as usize]);
                    }
                }
                assert(found =~= indices(n as nat));
                assert(chain@ =~= specs.map_values(
                    |spec: JointSpec|
                        Joint { kind: spec.kind, local_offset: spec.local_offset, joint_value: 0 },
                ));
                assert(chain.world() =~= Seq::new(specs.len(), |i: int| None::<Pose>));
            }
            Ok(chain)
        },
    }
}

} // verus!
