//! Joint nodes and the tree they are connected into.
//!
//! Nodes live in a [`JointTree`] and are named by their index in it. A node
//! stores the index of its parent and the indices of its children, so the
//! tree owns every node exactly once.

use vstd::prelude::*;
use crate::math_utils::Vec3;

verus! {

/// What a joint can do.
#[derive(Clone, Copy, Debug, PartialEq, Eq, Structural)]
pub enum JointKind {
    /// No degree of freedom.
    Fixed,
    /// One angle about `axis`, which is given in the joint's own frame.
    Rotational { axis: Vec3 },
}

/// Why a tree or a chain could not be built.
#[derive(Clone, Copy, Debug, PartialEq, Eq, Structural)]
pub enum ConstructionError {
    /// An index names no node of the tree.
    UnknownNode,
    /// A node that was to become a child has a parent already.
    DuplicateParent,
    /// The new edges would close a cycle.
    Cycle,
    /// There is no joint to build a chain from.
    NoJoints,
}

/// One node of a joint tree.
#[derive(Clone, Debug)]
pub struct JointNode {
    kind: JointKind,
    local_offset: Vec3,
    joint_value: i64,
    parent: Option<usize>,
    children: Vec<usize>,
}

/// The model of a [`JointNode`].
pub struct SpecNode {
    pub kind: JointKind,
    pub local_offset: Vec3,
    pub joint_value: i64,
    pub parent: Option<usize>,
    pub children: Seq<usize>,
}

impl View for JointNode {
    type V = SpecNode;

    closed spec fn view(&self) -> SpecNode {
        SpecNode {
            kind: self.kind,
            local_offset: self.local_offset,
            joint_value: self.joint_value,
            parent: self.parent,
            children: self.children@,
        }
    }
}

/// A set of joint nodes with the parent and child links between them.
#[derive(Clone, Debug)]
pub struct JointTree {
    nodes: Vec<JointNode>,
}

impl View for JointTree {
    type V = Seq<SpecNode>;

    closed spec fn view(&self) -> Seq<SpecNode> {
        Seq::new(self.nodes.len() as nat, |i: int| self.nodes[i]@)
    }
}

/// The `k`-th child of node `i` is a node whose parent is `i`.
pub open spec fn child_ok(s: Seq<SpecNode>, i: int, k: int) -> bool {
    s[i].children[k] < s.len() && s[s[i].children[k] as int].parent == Some(i as usize)
}

/// The links that node `i` holds agree with those of its neighbours.
pub open spec fn node_links_ok(s: Seq<SpecNode>, i: int) -> bool {
    &&& s[i].parent matches Some(p) ==> p < s.len() && s[p as int].children.contains(i as usize)
    &&& forall|k: int| 0 <= k < s[i].children.len() ==> #[trigger] child_ok(s, i, k)
    &&& s[i].children.no_duplicates()
}

/// Node `i` ranks above its parent.
pub open spec fn edge_ranked(s: Seq<SpecNode>, rank: Seq<nat>, i: int) -> bool {
    s[i].parent matches Some(p) ==> p < s.len() && rank[p as int] < rank[i]
}

/// `rank` grows along every edge from parent to child.
pub open spec fn ranked(s: Seq<SpecNode>, rank: Seq<nat>) -> bool {
    rank.len() == s.len() && forall|i: int| 0 <= i < s.len() ==> #[trigger] edge_ranked(s, rank, i)
}

/// The nodes form a forest: parent and child links agree, and no walk along
/// parent links returns to where it started.
pub open spec fn forest_wf(s: Seq<SpecNode>) -> bool {
    &&& forall|i: int| 0 <= i < s.len() ==> #[trigger] node_links_ok(s, i)
    &&& exists|rank: Seq<nat>| ranked(s, rank)
}

/// The node reached from `n` by `k` steps along parent links, if the walk
/// does not leave the tree before.
pub open spec fn ancestor_at(s: Seq<SpecNode>, n: int, k: nat) -> Option<int>
    decreases k,
{
    if n < 0 || n >= s.len() {
        None
    } else if k == 0 {
        Some(n)
    } else {
        match s[n].parent {
            Some(p) => ancestor_at(s, p as int, (k - 1) as nat),
            None => None,
        }
    }
}

/// `c` is `n` itself or one of its ancestors.
pub open spec fn reaches(s: Seq<SpecNode>, n: int, c: int) -> bool {
    exists|k: nat| ancestor_at(s, n, k) == Some(c)
}

/// The forest `s` with the edge from parent `a` to child `c` added: `c`
/// becomes the last child of `a`.
pub open spec fn link(s: Seq<SpecNode>, a: int, c: int) -> Seq<SpecNode> {
    s.update(c, SpecNode { parent: Some(a as usize), ..s[c] }).update(
        a,
        SpecNode { children: s[a].children.push(c as usize), ..s[a] },
    )
}

/// The forest `s` with the first `k` edges of `path` added in order, the
/// `i`-th of which runs from `path[i]` to `path[i + 1]`.
pub open spec fn linked(s: Seq<SpecNode>, path: Seq<usize>, k: nat) -> Seq<SpecNode>
    decreases k,
{
    if k == 0 {
        s
    } else {
        link(linked(s, path, (k - 1) as nat), path[k - 1] as int, path[k as int] as int)
    }
}

/// The forest `s` with every edge of `path` added.
pub open spec fn connected(s: Seq<SpecNode>, path: Seq<usize>) -> Seq<SpecNode> {
    if path.len() < 2 {
        s
    } else {
        linked(s, path, (path.len() - 1) as nat)
    }
}

/// `x` stands in `path` at a place from 1 up to, but not including, `upto`.
pub open spec fn occurs_as_child(path: Seq<usize>, upto: int, x: usize) -> bool {
    exists|j: int| 1 <= j < upto && path[j] == x
}

/// Whether the edges of `path` can be added to `s`, and if not, why.
///
/// Every index must name a node. Every node after the first must be free of a
/// parent and must stand in `path` once. None of them may be the first node or
/// one of its ancestors.
pub open spec fn connect_outcome(s: Seq<SpecNode>, path: Seq<usize>) -> Result<
    (),
    ConstructionError,
> {
    if exists|i: int| 0 <= i < path.len() && #[trigger] path[i] >= s.len() {
        Err(ConstructionError::UnknownNode)
    } else if exists|i: int|
        1 <= i < path.len() && (s[#[trigger] path[i] as int].parent is Some || occurs_as_child(
            path,
            i,
            path[i],
        )) {
        Err(ConstructionError::DuplicateParent)
    } else if exists|i: int|
        1 <= i < path.len() && reaches(s, path[0] as int, #[trigger] path[i] as int) {
        Err(ConstructionError::Cycle)
    } else {
        Ok(())
    }
}

/// `path` starts at `root`, goes from each node to its first child, and ends
/// at a node without children.
pub open spec fn is_first_child_path(s: Seq<SpecNode>, root: int, path: Seq<usize>) -> bool {
    &&& path.len() >= 1
    &&& path[0] == root
    &&& forall|i: int| 0 <= i < path.len() ==> #[trigger] path[i] < s.len()
    &&& forall|i: int|
        0 <= i < path.len() - 1 ==> s[#[trigger] path[i] as int].children.len() > 0 && path[i + 1]
            == s[path[i] as int].children[0]
    &&& s[path.last() as int].children.len() == 0
}

/// Every node reaches itself.
pub proof fn lemma_reaches_self(s: Seq<SpecNode>, n: int)
    requires
        0 <= n < s.len(),
    ensures
        reaches(s, n, n),
{
    assert(ancestor_at(s, n, 0) == Some(n));
}

/// An ancestor of `n` other than `n` is the parent of `n` or an ancestor of it.
pub proof fn lemma_reaches_step_up(s: Seq<SpecNode>, n: int, c: int)
    requires
        reaches(s, n, c),
        n != c,
    ensures
        0 <= n < s.len(),
        s[n].parent is Some,
        reaches(s, s[n].parent->0 as int, c),
{
    let k = choose|k: nat| ancestor_at(s, n, k) == Some(c);
    assert(k > 0);
    assert(ancestor_at(s, s[n].parent->0 as int, (k - 1) as nat) == Some(c));
}

/// What the parent of `n` reaches, `n` reaches.
pub proof fn lemma_reaches_from_parent(s: Seq<SpecNode>, n: int, c: int)
    requires
        0 <= n < s.len(),
        s[n].parent is Some,
        reaches(s, s[n].parent->0 as int, c),
    ensures
        reaches(s, n, c),
{
    let k = choose|k: nat| ancestor_at(s, s[n].parent->0 as int, k) == Some(c);
    assert(ancestor_at(s, n, k + 1) == Some(c));
}

/// The walk from `n` that ends at `m` after `k` steps ends at the parent of
/// `m` after one step more.
proof fn lemma_ancestor_extend(s: Seq<SpecNode>, n: int, k: nat, m: int)
    requires
        ancestor_at(s, n, k) == Some(m),
        0 <= m < s.len(),
        s[m].parent is Some,
        s[m].parent->0 < s.len(),
    ensures
        ancestor_at(s, n, k + 1) == Some(s[m].parent->0 as int),
    decreases k,
{
    if k == 0 {
        assert(ancestor_at(s, s[m].parent->0 as int, 0) == Some(s[m].parent->0 as int));
    } else {
        lemma_ancestor_extend(s, s[n].parent->0 as int, (k - 1) as nat, m);
    }
}

/// If `n` reaches `m`, it reaches the parent of `m` too.
pub proof fn lemma_reaches_extend(s: Seq<SpecNode>, n: int, m: int)
    requires
        reaches(s, n, m),
        0 <= m < s.len(),
        s[m].parent is Some,
        s[m].parent->0 < s.len(),
    ensures
        reaches(s, n, s[m].parent->0 as int),
{
    let k = choose|k: nat| ancestor_at(s, n, k) == Some(m);
    lemma_ancestor_extend(s, n, k, m);
}

/// A node that reaches only nodes whose parent link is the same in `s` and
/// `t` has the same ancestors in both.
proof fn lemma_ancestors_framed(s: Seq<SpecNode>, t: Seq<SpecNode>, c: int, n: int, k: nat)
    requires
        s.len() == t.len(),
        forall|i: int| 0 <= i < s.len() && i != c ==> (#[trigger] t[i]).parent == s[i].parent,
        !reaches(s, n, c),
    ensures
        ancestor_at(t, n, k) == ancestor_at(s, n, k),
    decreases k,
{
    if 0 <= n < s.len() && k > 0 {
        lemma_reaches_self(s, n);
        match s[n].parent {
            Some(p) => {
                if reaches(s, p as int, c) {
                    lemma_reaches_from_parent(s, n, c);
                }
                lemma_ancestors_framed(s, t, c, p as int, (k - 1) as nat);
            },
            None => {},
        }
    }
}

/// Where every node has the same parent in `s` and in `t`, the walks from a
/// node are the same in both.
proof fn lemma_same_parents_same_ancestors(s: Seq<SpecNode>, t: Seq<SpecNode>, n: int, k: nat)
    requires
        s.len() == t.len(),
        forall|i: int| 0 <= i < s.len() ==> (#[trigger] t[i]).parent == s[i].parent,
    ensures
        ancestor_at(t, n, k) == ancestor_at(s, n, k),
    decreases k,
{
    if 0 <= n < s.len() && k > 0 {
        match s[n].parent {
            Some(p) => {
                lemma_same_parents_same_ancestors(s, t, p as int, (k - 1) as nat);
            },
            None => {},
        }
    }
}

/// Where every node has the same parent in `s` and in `t`, a node reaches in
/// `t` what it reaches in `s`.
pub proof fn lemma_same_parents_same_reach(s: Seq<SpecNode>, t: Seq<SpecNode>, n: int, c: int)
    requires
        s.len() == t.len(),
        forall|i: int| 0 <= i < s.len() ==> (#[trigger] t[i]).parent == s[i].parent,
        reaches(s, n, c),
    ensures
        reaches(t, n, c),
{
    let k = choose|k: nat| ancestor_at(s, n, k) == Some(c);
    lemma_same_parents_same_ancestors(s, t, n, k);
}

/// Adding an edge to a parentless node that the parent does not reach keeps a
/// forest a forest.
proof fn lemma_link_keeps_forest(s: Seq<SpecNode>, a: int, c: int)
    requires
        forest_wf(s),
        0 <= a < s.len(),
        0 <= c < s.len(),
        s.len() <= usize::MAX,
        s[c].parent is None,
        !reaches(s, a, c),
    ensures
        forest_wf(link(s, a, c)),
        a != c,
{
    lemma_reaches_self(s, a);
    let t = link(s, a, c);
    let rank = choose|rank: Seq<nat>| ranked(s, rank);
    let shift = rank[a] + 1;
    let lifted = Seq::new(
        s.len(),
        |i: int|
            if reaches(s, i, c) {
                rank[i] + shift
            } else {
                rank[i]
            },
    );
    lemma_reaches_self(s, c);
    assert forall|i: int| 0 <= i < t.len() implies #[trigger] edge_ranked(t, lifted, i) by {
        assert(edge_ranked(s, rank, i));
        if i == c {
        } else if let Some(p) = s[i].parent {
            assert(t[i].parent == Some(p));
            if reaches(s, i, c) {
                lemma_reaches_step_up(s, i, c);
            } else if reaches(s, p as int, c) {
                lemma_reaches_from_parent(s, i, c);
            }
        }
    }
    assert(ranked(t, lifted));
    assert forall|i: int| 0 <= i < t.len() implies #[trigger] node_links_ok(t, i) by {
        assert(node_links_ok(s, i));
        assert(node_links_ok(s, a));
        if let Some(p) = t[i].parent {
            if i == c {
                assert(t[a].children[s[a].children.len() as int] == c as usize);
            } else {
                let at = choose|at: int|
                    0 <= at < s[p as int].children.len() && s[p as int].children[at] == i as usize;
                assert(t[p as int].children[at] == i as usize);
            }
        }
        assert forall|k: int| 0 <= k < t[i].children.len() implies #[trigger] child_ok(
            t,
            i,
            k,
        ) by {
            if i == a && k == s[a].children.len() {
            } else {
                assert(child_ok(s, i, k));
            }
        }
        if i == a {
            assert forall|k: int| 0 <= k < s[a].children.len() implies s[a].children[k]
                != c as usize by {
                assert(child_ok(s, a, k));
            }
        }
    }
}

/// What the parent `a` did not reach before the edge to `c` was added, `c`
/// does not reach after it, but for `c` itself.
proof fn lemma_link_keeps_rest(s: Seq<SpecNode>, a: int, c: int, x: int)
    requires
        0 <= a < s.len(),
        0 <= c < s.len(),
        s.len() <= usize::MAX,
        a != c,
        x != c,
        !reaches(s, a, c),
        !reaches(s, a, x),
    ensures
        !reaches(link(s, a, c), c, x),
{
    let t = link(s, a, c);
    if reaches(t, c, x) {
        lemma_reaches_step_up(t, c, x);
        assert(t[c].parent == Some(a as usize));
        assert(reaches(t, a, x));
        let k = choose|k: nat| ancestor_at(t, a, k) == Some(x);
        lemma_ancestors_framed(s, t, c, a, k);
        assert(ancestor_at(s, a, k) == Some(x));
    }
}

/// A sequence of distinct indices below `n` has at most `n` entries.
proof fn lemma_distinct_indices_fit(path: Seq<usize>, n: nat)
    requires
        path.no_duplicates(),
        forall|i: int| 0 <= i < path.len() ==> #[trigger] path[i] < n,
    ensures
        path.len() <= n,
{
    let ints = Seq::new(path.len(), |i: int| path[i] as int);
    assert(ints.no_duplicates());
    ints.unique_seq_to_set();
    vstd::set_lib::lemma_int_range(0, n as int);
    assert(ints.to_set().subset_of(vstd::set_lib::set_int_range(0, n as int))) by {
        assert forall|v: int| ints.to_set().contains(v) implies vstd::set_lib::set_int_range(
            0,
            n as int,
        ).contains(v) by {
            let i = choose|i: int| 0 <= i < ints.len() && ints[i] == v;
            assert(path[i] < n);
        }
    }
    vstd::set_lib::lemma_len_subset(ints.to_set(), vstd::set_lib::set_int_range(0, n as int));
}

/// A forest stays a forest when its links stay as they are.
proof fn lemma_same_links_same_forest(s: Seq<SpecNode>, t: Seq<SpecNode>)
    requires
        forest_wf(s),
        s.len() == t.len(),
        forall|i: int|
            0 <= i < s.len() ==> (#[trigger] t[i]).parent == s[i].parent && t[i].children
                == s[i].children,
    ensures
        forest_wf(t),
{
    let rank = choose|rank: Seq<nat>| ranked(s, rank);
    assert forall|i: int| 0 <= i < t.len() implies #[trigger] edge_ranked(t, rank, i) by {
        assert(edge_ranked(s, rank, i));
    }
    assert(ranked(t, rank));
    assert forall|i: int| 0 <= i < t.len() implies #[trigger] node_links_ok(t, i) by {
        assert(node_links_ok(s, i));
        assert forall|k: int| 0 <= k < t[i].children.len() implies #[trigger] child_ok(
            t,
            i,
            k,
        ) by {
            assert(child_ok(s, i, k));
        }
    }
}

impl JointNode {
    /// What the joint can do.
    pub fn kind(&self) -> (kind: JointKind)
        ensures
            kind == self@.kind,
    {
        self.kind
    }

    /// The offset of this joint in the frame of its parent.
    pub fn local_offset(&self) -> (offset: Vec3)
        ensures
            offset == self@.local_offset,
    {
        self.local_offset
    }

    /// The joint's current angle.
    pub fn joint_value(&self) -> (value: i64)
        ensures
            value == self@.joint_value,
    {
        self.joint_value
    }

    /// The index of the parent, if there is one.
    pub fn parent(&self) -> (parent: Option<usize>)
        ensures
            parent == self@.parent,
    {
        self.parent
    }

    /// The indices of the children, in the order in which they were connected.
    pub fn children(&self) -> (children: &Vec<usize>)
        ensures
            children@ == self@.children,
    {
        &self.children
    }
}

impl JointTree {
    /// The tree's invariant: its nodes form a forest.
    pub open spec fn wf(&self) -> bool {
        forest_wf(self@)
    }

    /// A tree without nodes.
    pub fn new() -> (tree: JointTree)
        ensures
            tree.wf(),
            tree@.len() == 0,
    {
        let tree = JointTree { nodes: Vec::new() };
        proof {
            assert(ranked(tree@, Seq::<nat>::empty()));
        }
        tree
    }

    /// The number of nodes.
    pub fn len(&self) -> (n: usize)
        ensures
            n == self@.len(),
    {
        self.nodes.len()
    }

    /// The node at `index`, if there is one.
    pub fn node(&self, index: usize) -> (node: Option<&JointNode>)
        ensures
            node is Some <==> index < self@.len(),
            node matches Some(found) ==> found@ == self@[index as int],
    {
        if index < self.nodes.len() {
            Some(&self.nodes[index])
        } else {
            None
        }
    }

    /// Sets the angle of the node at `index` and leaves all else as it is.
    /// Where `index` names no node, nothing changes and the result is `false`.
    pub fn set_joint_value(&mut self, index: usize, value: i64) -> (changed: bool)
        requires
            old(self).wf(),
        ensures
            final(self).wf(),
            changed <==> index < old(self)@.len(),
            changed ==> final(self)@ == old(self)@.update(
                index as int,
                SpecNode { joint_value: value, ..old(self)@[index as int] },
            ),
            !changed ==> final(self)@ == old(self)@,
    {
        if index >= self.nodes.len() {
            return false;
        }
        let ghost before = self@;
        self.nodes[index].joint_value = value;
        proof {
            assert(self@ =~= before.update(
                index as int,
                SpecNode { joint_value: value, ..before[index as int] },
            ));
            lemma_same_links_same_forest(before, self@);
        }
        true
    }

    /// The path from `root` along first children down to a node without
    /// children.
    ///
    /// The path visits no node twice, and `root` is an ancestor of every node
    /// on it.
    pub fn serial_path(&self, root: usize) -> (r: Result<Vec<usize>, ConstructionError>)
        requires
            self.wf(),
        ensures
            root >= self@.len() ==> r == Err::<Vec<usize>, ConstructionError>(
                ConstructionError::UnknownNode,
            ),
            root < self@.len() ==> r is Ok,
            r matches Ok(path) ==> {
                &&& is_first_child_path(self@, root as int, path@)
                &&& path@.no_duplicates()
                &&& forall|i: int|
                    0 <= i < path@.len() ==> reaches(self@, #[trigger] path@[i] as int, root as int)
            },
    {
        let n = self.nodes.len();
        if root >= n {
            return Err(ConstructionError::UnknownNode);
        }
        let ghost s = self@;
        let ghost rank = choose|rank: Seq<nat>| ranked(s, rank);
        let mut path: Vec<usize> = Vec::new();
        path.push(root);
        let mut cur = root;
        proof {
            lemma_reaches_self(s, root as int);
            lemma_distinct_indices_fit(path@, n as nat);
        }
        while self.nodes[cur as usize].children.len() > 0
            invariant
                n == s.len(),
                s == self@,
                self.wf(),
                ranked(s, rank),
                1 <= path@.len() <= n,
                path@[0] == root,
                cur == path@.last(),
                cur < n,
                forall|i: int| 0 <= i < path@.len() ==> #[trigger] path@[i] < n,
                forall|i: int|
                    0 <= i < path@.len() - 1 ==> s[#[trigger] path@[i] as int].children.len() > 0
                        && path@[i + 1] == s[path@[i] as int].children[0],
                forall|i: int, j: int|
                    0 <= i < j < path@.len() ==> rank[#[trigger] path@[i] as int]
                        < rank[#[trigger] path@[j] as int],
                forall|i: int|
                    0 <= i < path@.len() ==> reaches(s, #[trigger] path@[i] as int, root as int),
            decreases n - path@.len(),
        {
            let next = self.nodes[cur].children[0];
            let ghost before = path@;
            proof {
                assert(node_links_ok(s, cur as int));
                assert(child_ok(s, cur as int, 0));
                assert(edge_ranked(s, rank, next as int));
                lemma_reaches_from_parent(s, next as int, root as int);
            }
            path.push(next);
            proof {
                assert forall|i: int, j: int| 0 <= i < j < path@.len() implies rank[#[trigger] path@[i] as int]
                    < rank[#[trigger] path@[j] as int] by {
                    if j == before.len() {
                        if i < before.len() - 1 {
                            assert(rank[before[i] as int] < rank[before[before.len() - 1] as int]);
                        }
                    }
                }
                lemma_distinct_indices_fit(path@, n as nat);
            }
            cur = next;
        }
        Ok(path)
    }

    /// Adds a node without parent or children, with joint value zero, and
    /// returns its index.
    pub fn add_node(&mut self, kind: JointKind, local_offset: Vec3) -> (index: usize)
        requires
            old(self).wf(),
        ensures
            final(self).wf(),
            index == old(self)@.len(),
            final(self)@ == old(self)@.push(
                SpecNode {
                    kind,
                    local_offset,
                    joint_value: 0,
                    parent: None,
                    children: Seq::empty(),
                },
            ),
    {
        let index = self.nodes.len();
        let ghost before = self@;
        self.nodes.push(
            JointNode { kind, local_offset, joint_value: 0, parent: None, children: Vec::new() },
        );
        proof {
            let after = self@;
            assert(after =~= before.push(
                SpecNode {
                    kind,
                    local_offset,
                    joint_value: 0,
                    parent: None,
                    children: Seq::empty(),
                },
            ));
            let rank = choose|rank: Seq<nat>| ranked(before, rank);
            let grown = rank.push(0);
            assert forall|i: int| 0 <= i < after.len() implies #[trigger] edge_ranked(
                after,
                grown,
                i,
            ) by {
                if i < before.len() {
                    assert(edge_ranked(before, rank, i));
                }
            }
            assert(ranked(after, grown));
            assert forall|i: int| 0 <= i < after.len() implies #[trigger] node_links_ok(
                after,
                i,
            ) by {
                if i < before.len() {
                    assert(node_links_ok(before, i));
                    assert forall|k: int| 0 <= k < after[i].children.len() implies #[trigger] child_ok(
                    after, i, k) by {
                        assert(child_ok(before, i, k));
                    }
                }
            }
        }
        index
    }

    /// Adds the edge from parent `a` to child `c`.
    fn link_pair(&mut self, a: usize, c: usize)
        requires
            old(self).wf(),
            a < old(self)@.len(),
            c < old(self)@.len(),
            old(self)@[c as int].parent is None,
            !reaches(old(self)@, a as int, c as int),
        ensures
            final(self).wf(),
            final(self)@ == link(old(self)@, a as int, c as int),
    {
        proof {
            lemma_link_keeps_forest(self@, a as int, c as int);
        }
        let ghost before = self@;
        self.nodes[c].parent = Some(a);
        self.nodes[a].children.push(c);
        proof {
            assert(self@ =~= link(before, a as int, c as int));
        }
    }

    /// Makes `path[0]` the parent of `path[1]`, `path[1]` the parent of
    /// `path[2]`, and so on, each new child the last among its siblings.
    ///
    /// The edges are added only if all of them can be: otherwise the tree is
    /// left as it was, and the error says what stands in the way.
    pub fn connect(&mut self, path: &Vec<usize>) -> (r: Result<(), ConstructionError>)
        requires
            old(self).wf(),
        ensures
            final(self).wf(),
            r == connect_outcome(old(self)@, path@),
            r is Ok ==> final(self)@ == connected(old(self)@, path@),
            r is Err ==> final(self)@ == old(self)@,
    {
        let n = self.nodes.len();
        let count = path.len();
        let ghost s = self@;
        let mut i: usize = 0;
        while i < count
            invariant
                i <= count,
                count == path@.len(),
                n == s.len(),
                s == self@,
                self.wf(),
                forall|j: int| 0 <= j < i ==> #[trigger] path@[j] < n,
            decreases count - i,
        {
            if path[i] >= n {
                proof {
                    assert(path@[i as int] >= s.len());
                }
                return Err(ConstructionError::UnknownNode);
            }
            i += 1;
        }
        if count < 2 {
            return Ok(());
        }
        let mut seen: Vec<bool> = Vec::new();
        let mut filled: usize = 0;
        while filled < n
            invariant
                filled <= n,
                seen@.len() == filled,
                forall|x: int| 0 <= x < filled ==> !#[trigger] seen@[x],
            decreases n - filled,
        {
            seen.push(false);
            filled += 1;
        }
        let mut i: usize = 1;
        while i < count
            invariant
                1 <= i <= count,
                count == path@.len(),
                n == s.len(),
                s == self@,
                self.wf(),
                seen@.len() == n,
                forall|j: int| 0 <= j < count ==> #[trigger] path@[j] < n,
                forall|x: int| 0 <= x < n ==> (#[trigger] seen@[x] <==> occurs_as_child(path@, i as int, x as usize)),
                forall|j: int| 1 <= j < i ==> s[#[trigger] path@[j] as int].parent is None,
                forall|j: int| 1 <= j < i ==> !occurs_as_child(path@, j, #[trigger] path@[j]),
            decreases count - i,
        {
            let c = path[i];
            if self.nodes[c].parent.is_some() || seen[c] {
                return Err(ConstructionError::DuplicateParent);
            }
            seen.set(c, true);
            proof {
                assert forall|x: int| 0 <= x < n implies (#[trigger] seen@[x] <==> occurs_as_child(
                    path@,
                    i + 1,
                    x as usize,
                )) by {
                    if occurs_as_child(path@, i as int, x as usize) {
                        let j = choose|j: int| 1 <= j < i && path@[j] == x as usize;
                        assert(1 <= j < i + 1 && path@[j] == x as usize);
                    }
                    if x == c {
                        assert(1 <= i < i + 1 && path@[i as int] == x as usize);
                    }
                    if occurs_as_child(path@, i + 1, x as usize) && x != c {
                        let j = choose|j: int| 1 <= j < i + 1 && path@[j] == x as usize;
                        assert(1 <= j < i && path@[j] == x as usize);
                    }
                }
            }
            i += 1;
        }
        let head = path[0];
        let mut cur = head;
        let mut at_root = false;
        let ghost rank = choose|rank: Seq<nat>| ranked(s, rank);
        proof {
            lemma_reaches_self(s, head as int);
        }
        while !at_root
            invariant
                count == path@.len(),
                count >= 2,
                n == s.len(),
                s == self@,
                self.wf(),
                ranked(s, rank),
                head == path@[0],
                cur < n,
                seen@.len() == n,
                reaches(s, head as int, cur as int),
                forall|x: int| 0 <= x < n ==> (#[trigger] seen@[x] <==> occurs_as_child(path@, count as int, x as usize)),
                forall|j: int| 0 <= j < count ==> #[trigger] path@[j] < n,
                forall|j: int| 1 <= j < count ==> s[#[trigger] path@[j] as int].parent is None,
                forall|j: int| 1 <= j < count ==> !occurs_as_child(path@, j, #[trigger] path@[j]),
                forall|x: int|
                    0 <= x < n && seen@[x] && #[trigger] reaches(s, head as int, x) ==> (if at_root {
                        false
                    } else {
                        reaches(s, cur as int, x)
                    }),
            decreases
                    (if at_root {
                        0
                    } else {
                        rank[cur as int] + 1
                    }),
        {
            if seen[cur] {
                proof {
                    let j = choose|j: int| 1 <= j < count && path@[j] == cur;
                    assert(reaches(s, path@[0] as int, path@[j] as int));
                }
                return Err(ConstructionError::Cycle);
            }
            proof {
                assert(node_links_ok(s, cur as int));
                assert(edge_ranked(s, rank, cur as int));
            }
            match self.nodes[cur].parent {
                None => {
                    proof {
                        assert forall|x: int|
                            0 <= x < n && seen@[x] && #[trigger] reaches(
                                s,
                                head as int,
                                x,
                            ) implies false by {
                            if x != cur {
                                lemma_reaches_step_up(s, cur as int, x);
                            }
                        }
                    }
                    at_root = true;
                },
                Some(p) => {
                    proof {
                        lemma_reaches_extend(s, head as int, cur as int);
                        assert forall|x: int|
                            0 <= x < n && seen@[x] && #[trigger] reaches(
                                s,
                                head as int,
                                x,
                            ) implies reaches(s, p as int, x) by {
                            lemma_reaches_step_up(s, cur as int, x);
                        }
                    }
                    cur = p;
                },
            }
        }
        proof {
            assert forall|j: int| 1 <= j < count implies !reaches(
                s,
                path@[0] as int,
                #[trigger] path@[j] as int,
            ) by {
                let x = path@[j] as int;
                assert(occurs_as_child(path@, count as int, x as usize));
                assert(seen@[x]);
            }
            assert(connect_outcome(s, path@) == Ok::<(), ConstructionError>(()));
        }
        let mut i: usize = 1;
        while i < count
            invariant
                1 <= i <= count,
                count == path@.len(),
                n == s.len(),
                n == self@.len(),
                self.wf(),
                self@ == linked(s, path@, (i - 1) as nat),
                forall|j: int| 0 <= j < count ==> #[trigger] path@[j] < n,
                forall|j: int| 1 <= j < count ==> !occurs_as_child(path@, j, #[trigger] path@[j]),
                forall|j: int| i <= j < count ==> self@[#[trigger] path@[j] as int].parent is None,
                forall|j: int|
                    i <= j < count ==> !reaches(self@, path@[i - 1] as int, #[trigger] path@[j] as int),
            decreases count - i,
        {
            let a = path[i - 1];
            let c = path[i];
            let ghost before = self@;
            proof {
                lemma_link_keeps_forest(before, a as int, c as int);
            }
            self.link_pair(a, c);
            proof {
                assert forall|j: int| i + 1 <= j < count implies self@[#[trigger] path@[j] as int].parent is None by {
                    assert(!occurs_as_child(path@, j, path@[j]));
                    assert(path@[j] != c);
                    assert(before[path@[j] as int].parent is None);
                }
                assert forall|j: int| i + 1 <= j < count implies !reaches(
                    self@,
                    path@[i as int] as int,
                    #[trigger] path@[j] as int,
                ) by {
                    assert(!occurs_as_child(path@, j, path@[j]));
                    assert(path@[j] != c);
                    lemma_link_keeps_rest(before, a as int, c as int, path@[j] as int);
                }
            }
            i += 1;
        }
        Ok(())
    }
}

} // verus!
