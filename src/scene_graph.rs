//! The scene graph: an arena of named nodes with local and world transforms,
//! attached behaviors and parent/child links.
//!
//! Nodes live in one vector and refer to each other by index, so the arena
//! alone owns them. Each node carries a ghost depth that strictly grows from
//! parent to child, which keeps the parent links acyclic.
use vstd::prelude::*;
use crate::transform::{compose, identity, mat_mul};

verus! {

/// A handle to a node of a [`SceneGraph`].
#[derive(Clone, Copy, PartialEq, Eq, Structural, Debug)]
pub struct GameObject {
    pub index: usize,
}

/// Identifies a mesh that a node draws.
pub type MeshId = usize;

/// Why a structural change of the graph was refused.
#[derive(Clone, Copy, PartialEq, Eq, Structural, Debug)]
pub enum SceneError {
    /// The child already has a parent.
    AlreadyHasParent,
    /// The child is the parent itself or one of its ancestors.
    WouldCreateCycle,
    /// The node is not a child of the given parent.
    NotAChild,
}

/// One node of the arena.
pub struct GameObjectNode {
    name: String,
    mesh_id: Option<MeshId>,
    local_transform: glam::Mat4,
    world_transform: glam::Mat4,
    behavior: Vec<usize>,
    parent: Option<usize>,
    children: Vec<usize>,
}

/// The arena that owns every node.
pub struct SceneGraph {
    nodes: Vec<GameObjectNode>,
    identity: glam::Mat4,
    depth: Ghost<Seq<nat>>,
}

impl SceneGraph {
    pub closed spec fn len(&self) -> nat {
        self.nodes@.len()
    }

    pub closed spec fn name_of(&self, i: int) -> Seq<char> {
        self.nodes@[i].name@
    }

    pub closed spec fn mesh_of(&self, i: int) -> Option<MeshId> {
        self.nodes@[i].mesh_id
    }

    pub closed spec fn local_of(&self, i: int) -> glam::Mat4 {
        self.nodes@[i].local_transform
    }

    pub closed spec fn world_of(&self, i: int) -> glam::Mat4 {
        self.nodes@[i].world_transform
    }

    pub closed spec fn behaviors_of(&self, i: int) -> Seq<usize> {
        self.nodes@[i].behavior@
    }

    pub closed spec fn parent_of(&self, i: int) -> Option<usize> {
        self.nodes@[i].parent
    }

    pub closed spec fn children_of(&self, i: int) -> Seq<usize> {
        self.nodes@[i].children@
    }

    /// The transform that every new node starts with.
    pub closed spec fn identity_transform(&self) -> glam::Mat4 {
        self.identity
    }

    /// The ghost depth of node `i`, which grows from parent to child.
    pub closed spec fn depth_of(&self, i: int) -> nat {
        self.depth@[i]
    }

    /// Parent and child links agree, children lists hold no node twice, and
    /// depths grow from parent to child, so that no node is its own ancestor.
    pub closed spec fn wf(&self) -> bool {
        &&& self.depth@.len() == self.nodes@.len()
        &&& self.nodes@.len() <= usize::MAX
        &&& forall|i: int| #![trigger self.nodes@[i].parent]
            0 <= i < self.len() && self.parent_of(i) is Some ==> {
                let p = self.parent_of(i)->0 as int;
                &&& 0 <= p < self.len()
                &&& self.depth_of(p) < self.depth_of(i)
                &&& self.children_of(p).contains(i as usize)
            }
        &&& forall|i: int, k: int| #![trigger self.nodes@[i].children@[k]]
            0 <= i < self.len() && 0 <= k < self.children_of(i).len() ==> {
                &&& (self.children_of(i)[k] as int) < self.len()
                &&& self.parent_of(self.children_of(i)[k] as int) == Some(i as usize)
            }
        &&& forall|i: int| #![trigger self.nodes@[i].children]
            0 <= i < self.len() ==> self.children_of(i).no_duplicates()
    }

    /// Whether `i` lies in the subtree rooted at `root` (`root` itself included).
    pub closed spec fn in_subtree(&self, root: int, i: int) -> bool
        decreases self.depth_of(i),
    {
        if i == root {
            true
        } else {
            match self.parent_of(i) {
                Some(p) => self.depth_of(p as int) < self.depth_of(i) && self.in_subtree(root, p as int),
                None => false,
            }
        }
    }

    /// The local transforms of `i` and of all its ancestors, composed from the
    /// root down: `L(root) * ... * L(parent) * L(i)`.
    pub closed spec fn chained_world(&self, i: int) -> glam::Mat4
        decreases self.depth_of(i),
    {
        match self.parent_of(i) {
            Some(p) => if self.depth_of(p as int) < self.depth_of(i) {
                mat_mul(self.chained_world(p as int), self.local_of(i))
            } else {
                self.local_of(i)
            },
            None => self.local_of(i),
        }
    }

    /// The world transform that the derivation step gives node `i` from the
    /// current state: the parent's world times the local, or the local alone.
    pub open spec fn derived_world(&self, i: int) -> glam::Mat4 {
        match self.parent_of(i) {
            Some(p) => mat_mul(self.world_of(p as int), self.local_of(i)),
            None => self.local_of(i),
        }
    }

    /// Everything but world transforms is the same in both graphs.
    pub open spec fn same_structure(&self, other: &SceneGraph) -> bool {
        &&& self.len() == other.len()
        &&& self.identity_transform() == other.identity_transform()
        &&& forall|i: int|
            #![trigger self.name_of(i)]
            #![trigger self.mesh_of(i)]
            #![trigger self.local_of(i)]
            #![trigger self.behaviors_of(i)]
            #![trigger self.parent_of(i)]
            #![trigger self.children_of(i)]
            0 <= i < self.len() ==> {
            &&& self.name_of(i) == other.name_of(i)
            &&& self.mesh_of(i) == other.mesh_of(i)
            &&& self.local_of(i) == other.local_of(i)
            &&& self.behaviors_of(i) == other.behaviors_of(i)
            &&& self.parent_of(i) == other.parent_of(i)
            &&& self.children_of(i) == other.children_of(i)
        }
    }

    /// An empty graph.
    pub fn new() -> (r: SceneGraph)
        ensures
            r.wf(),
            r.len() == 0,
    {
        SceneGraph { nodes: Vec::new(), identity: identity(), depth: Ghost(Seq::empty()) }
    }

    /// The number of nodes in the arena.
    pub fn node_count(&self) -> (r: usize)
        ensures
            r == self.len(),
    {
        self.nodes.len()
    }
}

impl GameObjectNode {
    /// Adds a node named `name` to the graph, with the identity as local and
    /// world transform, no mesh, no behaviors, no parent and no children.
    pub fn new(graph: &mut SceneGraph, name: &str) -> (r: GameObject)
        requires
            old(graph).wf(),
            old(graph).len() < usize::MAX,
        ensures
            final(graph).wf(),
            r.index == old(graph).len(),
            final(graph).len() == old(graph).len() + 1,
            final(graph).identity_transform() == old(graph).identity_transform(),
            forall|i: int| 0 <= i < old(graph).len() ==> final(graph).node_unchanged(old(graph), i),
            final(graph).name_of(r.index as int) == name@,
            final(graph).mesh_of(r.index as int) is None,
            final(graph).local_of(r.index as int) == old(graph).identity_transform(),
            final(graph).world_of(r.index as int) == old(graph).identity_transform(),
            final(graph).behaviors_of(r.index as int).len() == 0,
            final(graph).parent_of(r.index as int) is None,
            final(graph).children_of(r.index as int).len() == 0,
    {
        let index = graph.nodes.len();
        let node = GameObjectNode {
            name: name.to_owned(),
            mesh_id: None,
            local_transform: graph.identity,
            world_transform: graph.identity,
            behavior: Vec::new(),
            parent: None,
            children: Vec::new(),
        };
        graph.nodes.push(node);
        proof {
            graph.depth@ = graph.depth@.push(0);
        }
        assert forall|i: int, k: int|
            0 <= i < graph.len() && 0 <= k < graph.children_of(i).len() implies {
                &&& (graph.children_of(i)[k] as int) < graph.len()
                &&& graph.parent_of(graph.children_of(i)[k] as int) == Some(i as usize)
            } by {
            assert(i < index);
            assert(old(graph).children_of(i)[k] < index);
        }
        GameObject { index }
    }
}

impl SceneGraph {
    /// Node `i` is as it was in `other`.
    pub open spec fn node_unchanged(&self, other: &SceneGraph, i: int) -> bool {
        &&& self.name_of(i) == other.name_of(i)
        &&& self.mesh_of(i) == other.mesh_of(i)
        &&& self.local_of(i) == other.local_of(i)
        &&& self.world_of(i) == other.world_of(i)
        &&& self.behaviors_of(i) == other.behaviors_of(i)
        &&& self.parent_of(i) == other.parent_of(i)
        &&& self.children_of(i) == other.children_of(i)
    }

    /// Sets the world transform of `node` from the current state: the parent's
    /// world transform times the node's local transform, or the local
    /// transform alone for a node without parent. Nothing else changes.
    pub fn derive_world(&mut self, node: GameObject)
        requires
            old(self).wf(),
            node.index < old(self).len(),
        ensures
            final(self).wf(),
            final(self).is_derivation_of(old(self), node.index as int),
    {
        let i = node.index;
        let world = match self.nodes[i].parent {
            Some(p) => compose(&self.nodes[p].world_transform, &self.nodes[i].local_transform),
            None => self.nodes[i].local_transform,
        };
        self.nodes[i].world_transform = world;
        assert forall|j: int| 0 <= j < self.len() implies #[trigger] self.name_of(j) == old(self).name_of(j)
            && self.children_of(j) == old(self).children_of(j) by {}
    }
}

impl GameObject {
    /// Appends the behavior `behavior` to the node's behaviors.
    pub fn add_behavior(&mut self, graph: &mut SceneGraph, behavior: usize)
        requires
            old(graph).wf(),
            old(self).index < old(graph).len(),
        ensures
            *final(self) == *old(self),
            final(graph).wf(),
            final(graph).len() == old(graph).len(),
            final(graph).identity_transform() == old(graph).identity_transform(),
            final(graph).behaviors_of(old(self).index as int)
                == old(graph).behaviors_of(old(self).index as int).push(behavior),
            forall|i: int| 0 <= i < old(graph).len() && i != old(self).index ==>
                final(graph).node_unchanged(old(graph), i),
            ({
                let i = old(self).index as int;
                &&& final(graph).name_of(i) == old(graph).name_of(i)
                &&& final(graph).mesh_of(i) == old(graph).mesh_of(i)
                &&& final(graph).local_of(i) == old(graph).local_of(i)
                &&& final(graph).world_of(i) == old(graph).world_of(i)
                &&& final(graph).parent_of(i) == old(graph).parent_of(i)
                &&& final(graph).children_of(i) == old(graph).children_of(i)
            }),
    {
        graph.nodes[self.index].behavior.push(behavior);
        assert forall|j: int| 0 <= j < graph.len() implies #[trigger] graph.children_of(j) == old(graph).children_of(j) by {}
    }

    /// Replaces the node's local transform by `transform`.
    pub fn set_local_transform(&self, graph: &mut SceneGraph, transform: glam::Mat4)
        requires
            old(graph).wf(),
            self.index < old(graph).len(),
        ensures
            final(graph).wf(),
            final(graph).is_local_set_of(old(graph), self.index as int, transform),
    {
        graph.nodes[self.index].local_transform = transform;
        assert forall|j: int| 0 <= j < graph.len() implies #[trigger] graph.children_of(j) == old(graph).children_of(j) by {}
    }

    /// Sets the mesh that the node draws; `None` makes it a node without
    /// mesh, such as a pivot.
    pub fn set_mesh(&self, graph: &mut SceneGraph, mesh: Option<MeshId>)
        requires
            old(graph).wf(),
            self.index < old(graph).len(),
        ensures
            final(graph).wf(),
            final(graph).len() == old(graph).len(),
            final(graph).identity_transform() == old(graph).identity_transform(),
            final(graph).mesh_of(self.index as int) == mesh,
            forall|i: int| 0 <= i < old(graph).len() && i != self.index ==>
                final(graph).node_unchanged(old(graph), i),
            ({
                let i = self.index as int;
                &&& final(graph).name_of(i) == old(graph).name_of(i)
                &&& final(graph).local_of(i) == old(graph).local_of(i)
                &&& final(graph).world_of(i) == old(graph).world_of(i)
                &&& final(graph).behaviors_of(i) == old(graph).behaviors_of(i)
                &&& final(graph).parent_of(i) == old(graph).parent_of(i)
                &&& final(graph).children_of(i) == old(graph).children_of(i)
            }),
    {
        graph.nodes[self.index].mesh_id = mesh;
        assert forall|j: int| 0 <= j < graph.len() implies #[trigger] graph.children_of(j) == old(graph).children_of(j) by {}
    }

    /// The mesh that the node draws, if any.
    pub fn get_mesh(&self, graph: &SceneGraph) -> (r: Option<MeshId>)
        requires
            self.index < graph.len(),
        ensures
            r == graph.mesh_of(self.index as int),
    {
        graph.nodes[self.index].mesh_id
    }

    /// The behaviors attached to the node, in attachment order.
    pub fn get_behaviors(&self, graph: &SceneGraph) -> (r: Vec<usize>)
        requires
            self.index < graph.len(),
        ensures
            r@ == graph.behaviors_of(self.index as int),
    {
        let b = &graph.nodes[self.index].behavior;
        let mut r: Vec<usize> = Vec::new();
        let mut k: usize = 0;
        while k < b.len()
            invariant
                k <= b.len(),
                r@ == b@.take(k as int),
            decreases b.len() - k,
        {
            r.push(b[k]);
            proof {
                assert(b@.take(k + 1) =~= b@.take(k as int).push(b@[k as int]));
            }
            k = k + 1;
        }
        proof {
            assert(b@.take(k as int) =~= b@);
        }
        r
    }

    /// The node's parent, if any.
    pub fn get_parent(&self, graph: &SceneGraph) -> (r: Option<GameObject>)
        requires
            self.index < graph.len(),
        ensures
            r == match graph.parent_of(self.index as int) {
                Some(p) => Some(GameObject { index: p }),
                None => None::<GameObject>,
            },
    {
        match graph.nodes[self.index].parent {
            Some(p) => Some(GameObject { index: p }),
            None => None,
        }
    }

    /// The node's world transform as of the last derivation.
    pub fn get_world_transform(&self, graph: &SceneGraph) -> (r: glam::Mat4)
        requires
            self.index < graph.len(),
        ensures
            r == graph.world_of(self.index as int),
    {
        graph.nodes[self.index].world_transform
    }

    /// The node's local transform.
    pub fn get_local_transform(&self, graph: &SceneGraph) -> (r: glam::Mat4)
        requires
            self.index < graph.len(),
        ensures
            r == graph.local_of(self.index as int),
    {
        graph.nodes[self.index].local_transform
    }

    /// The node's name.
    pub fn get_name(&self, graph: &SceneGraph) -> (r: String)
        requires
            self.index < graph.len(),
        ensures
            r@ == graph.name_of(self.index as int),
    {
        graph.nodes[self.index].name.clone()
    }
}

/// The number of `false` entries of `s`.
pub open spec fn count_unvisited(s: Seq<bool>) -> nat
    decreases s.len(),
{
    if s.len() == 0 {
        0
    } else {
        count_unvisited(s.drop_last()) + if s.last() { 0nat } else { 1nat }
    }
}

proof fn lemma_mark_visited(s: Seq<bool>, q: int)
    requires
        0 <= q < s.len(),
        !s[q],
    ensures
        count_unvisited(s.update(q, true)) + 1 == count_unvisited(s),
    decreases s.len(),
{
    if q == s.len() - 1 {
        assert(s.update(q, true).drop_last() =~= s.drop_last());
    } else {
        lemma_mark_visited(s.drop_last(), q);
        assert(s.update(q, true).drop_last() =~= s.drop_last().update(q, true));
    }
}

impl SceneGraph {
    /// `o` visits the subtree of `root` once each, starting at `root`, and
    /// each node after its parent.
    pub open spec fn is_traversal(&self, root: int, o: Seq<usize>) -> bool {
        &&& o.no_duplicates()
        &&& o.len() > 0
        &&& o[0] == root
        &&& forall|k: int| 0 <= k < o.len() ==> (#[trigger] o[k] as int) < self.len()
            && self.in_subtree(root, o[k] as int)
        &&& forall|i: int| 0 <= i < self.len() && #[trigger] self.in_subtree(root, i)
            ==> o.contains(i as usize)
        &&& forall|k: int| #![trigger o[k]] 0 < k < o.len() ==> exists|j: int|
            0 <= j < k && Some(#[trigger] o[j]) == self.parent_of(o[k] as int)
    }

    proof fn lemma_closed_under_children(&self, root: int, visited: Seq<bool>, i: int)
        requires
            self.wf(),
            visited.len() == self.len(),
            0 <= root < self.len(),
            visited[root],
            forall|q: int, c: int| 0 <= q < self.len() && visited[q]
                && 0 <= c < self.children_of(q).len()
                ==> visited[#[trigger] self.children_of(q)[c] as int],
            0 <= i < self.len(),
            self.in_subtree(root, i),
        ensures
            visited[i],
        decreases self.depth_of(i),
    {
        if i != root {
            assert(self.nodes@[i].parent is Some);
            let p = self.parent_of(i)->0 as int;
            assert(self.in_subtree(root, p));
            self.lemma_closed_under_children(root, visited, p);
            assert(self.children_of(p).contains(i as usize));
            let c = choose|c: int| 0 <= c < self.children_of(p).len() && self.children_of(p)[c] == i as usize;
            assert(visited[self.children_of(p)[c] as int]);
        }
    }
}

impl GameObjectNode {
    /// The order in which an update pass visits the subtree of `root`:
    /// depth first, each node before its children.
    pub fn update_order(graph: &SceneGraph, root: GameObject) -> (r: Vec<usize>)
        requires
            graph.wf(),
            root.index < graph.len(),
        ensures
            graph.is_traversal(root.index as int, r@),
    {
        let n = graph.nodes.len();
        let rt = root.index;
        let mut visited: Vec<bool> = Vec::new();
        let mut z: usize = 0;
        while z < n
            invariant
                z <= n,
                visited.len() == z,
                forall|i: int| 0 <= i < z ==> !visited@[i],
            decreases n - z,
        {
            visited.push(false);
            z = z + 1;
        }
        let mut order: Vec<usize> = Vec::new();
        let mut stack: Vec<usize> = Vec::new();
        stack.push(rt);
        assert(stack@[0] == rt);
        while stack.len() > 0
            invariant
                graph.wf(),
                n == graph.len(),
                rt < n,
                visited.len() == n,
                forall|i: int| 0 <= i < n ==> visited@[i] == order@.contains(i as usize),
                order@.no_duplicates(),
                forall|k: int| 0 <= k < order.len() ==> (#[trigger] order@[k] as int) < n
                    && graph.in_subtree(rt as int, order@[k] as int),
                order.len() > 0 ==> order@[0] == rt,
                order.len() == 0 ==> stack@ == seq![rt],
                forall|k: int| #![trigger order@[k]] 0 < k < order.len() ==> exists|j: int|
                    0 <= j < k && Some(#[trigger] order@[j]) == graph.parent_of(order@[k] as int),
                forall|m: int| 0 <= m < stack.len() ==> {
                    &&& (#[trigger] stack@[m] as int) < n
                    &&& graph.in_subtree(rt as int, stack@[m] as int)
                    &&& (stack@[m] == rt || (graph.parent_of(stack@[m] as int) is Some
                        && visited@[graph.parent_of(stack@[m] as int)->0 as int]))
                },
                forall|q: int, c: int| 0 <= q < n && visited@[q]
                    && 0 <= c < graph.children_of(q).len()
                    ==> visited@[#[trigger] graph.children_of(q)[c] as int]
                        || stack@.contains(graph.children_of(q)[c]),
                visited@[rt as int] || stack@.contains(rt),
            decreases count_unvisited(visited@), stack.len(),
        {
            let ghost s0 = stack@;
            let ghost o0 = order@;
            let q = stack.pop().unwrap();
            proof {
                assert(s0 =~= stack@.push(q));
                assert(s0[s0.len() - 1] == q);
                assert forall|x: usize| s0.contains(x) && x != q implies stack@.contains(x) by {
                    let m = choose|m: int| 0 <= m < s0.len() && s0[m] == x;
                    assert(stack@[m] == x);
                }
                assert forall|m: int| 0 <= m < stack.len() implies stack@[m] == s0[m] by {}
            }
            if !visited[q] {
                proof {
                    lemma_mark_visited(visited@, q as int);
                    if o0.len() > 0 {
                        assert(visited@[rt as int]);
                        assert(q != rt);
                        let p = graph.parent_of(q as int)->0;
                        assert(o0.contains(p));
                    }
                }
                let ghost v0 = visited@;
                visited.set(q, true);
                order.push(q);
                proof {
                    assert(visited@ == v0.update(q as int, true));
                    if q != rt && !v0[rt as int] {
                        assert(s0.contains(rt));
                        assert(stack@.contains(rt));
                    }
                    assert(order@ =~= o0.push(q));
                    assert forall|i: int| 0 <= i < n implies visited@[i] == order@.contains(i as usize) by {
                        assert(v0[i] == o0.contains(i as usize));
                        if i == q {
                            assert(order@[order.len() - 1] == q);
                        }
                        if v0[i] && i != q {
                            assert(o0.contains(i as usize));
                            let j = choose|j: int| 0 <= j < o0.len() && o0[j] == i as usize;
                            assert(order@[j] == i as usize);
                        }
                        if order@.contains(i as usize) && i != q {
                            let j = choose|j: int| 0 <= j < order.len() && order@[j] == i as usize;
                            assert(o0[j] == i as usize);
                        }
                    }
                    assert forall|k: int| #![trigger order@[k]] 0 < k < order.len() implies exists|j: int|
                        0 <= j < k && Some(#[trigger] order@[j]) == graph.parent_of(order@[k] as int) by {
                        if k < o0.len() {
                            let j = choose|j: int| 0 <= j < k && Some(o0[j]) == graph.parent_of(o0[k] as int);
                            assert(order@[j] == o0[j]);
                        } else {
                            let p = graph.parent_of(q as int)->0;
                            let j = choose|j: int| 0 <= j < o0.len() && o0[j] == p;
                            assert(order@[j] == p);
                        }
                    }
                }
                let kids = &graph.nodes[q].children;
                let mut c: usize = 0;
                while c < kids.len()
                    invariant
                        graph.wf(),
                        n == graph.len(),
                        rt < n,
                        q < n,
                        kids@ == graph.children_of(q as int),
                        visited.len() == n,
                        visited@[q as int],
                        graph.in_subtree(rt as int, q as int),
                        c <= kids.len(),
                        forall|c2: int| 0 <= c2 < c ==> stack@.contains(kids@[c2]),
                        forall|m: int| 0 <= m < stack.len() ==> {
                            &&& (#[trigger] stack@[m] as int) < n
                            &&& graph.in_subtree(rt as int, stack@[m] as int)
                            &&& (stack@[m] == rt || (graph.parent_of(stack@[m] as int) is Some
                                && visited@[graph.parent_of(stack@[m] as int)->0 as int]))
                        },
                        forall|q2: int, c2: int| 0 <= q2 < n && visited@[q2] && q2 != q
                            && 0 <= c2 < graph.children_of(q2).len()
                            ==> visited@[#[trigger] graph.children_of(q2)[c2] as int]
                                || stack@.contains(graph.children_of(q2)[c2]),
                        visited@[rt as int] || stack@.contains(rt),
                    decreases kids.len() - c,
                {
                    let child = kids[c];
                    proof {
                        assert(graph.nodes@[q as int].children@[c as int] == child);
                        assert(graph.parent_of(child as int) == Some(q));
                        assert(graph.nodes@[child as int].parent is Some);
                        assert(graph.in_subtree(rt as int, child as int));
                    }
                    let ghost st = stack@;
                    stack.push(child);
                    proof {
                        assert(stack@ == st.push(child));
                        assert(stack@[stack.len() - 1] == child);
                        assert forall|x: usize| st.contains(x) implies stack@.contains(x) by {
                            let m = choose|m: int| 0 <= m < st.len() && st[m] == x;
                            assert(stack@[m] == x);
                        }
                        assert forall|c2: int| 0 <= c2 < c + 1 implies stack@.contains(kids@[c2]) by {
                            if c2 < c {
                                assert(st.contains(kids@[c2]));
                            } else {
                                assert(stack@[stack.len() - 1] == kids@[c2]);
                            }
                        }
                        assert forall|q2: int, c2: int| 0 <= q2 < n && visited@[q2] && q2 != q
                            && 0 <= c2 < graph.children_of(q2).len()
                            && !visited@[graph.children_of(q2)[c2] as int]
                            implies stack@.contains(graph.children_of(q2)[c2]) by {
                            assert(st.contains(graph.children_of(q2)[c2]));
                        }
                        if !visited@[rt as int] {
                            assert(st.contains(rt));
                        }
                    }
                    c = c + 1;
                }
            }
        }
        proof {
            assert forall|i: int| 0 <= i < n && #[trigger] graph.in_subtree(rt as int, i)
                implies order@.contains(i as usize) by {
                graph.lemma_closed_under_children(rt as int, visited@, i);
            }
        }
        order
    }
}

impl GameObjectNode {
    /// Derives the world transform of every node in the subtree of `root`,
    /// each after its parent: `root` from its parent's world transform (or its
    /// local transform alone if it has no parent), every other node from its
    /// parent's new world transform. Nodes outside the subtree keep theirs.
    pub fn update(graph: &mut SceneGraph, root: GameObject)
        requires
            old(graph).wf(),
            root.index < old(graph).len(),
        ensures
            final(graph).wf(),
            final(graph).is_update_of(old(graph), root.index as int),
    {
        let order = GameObjectNode::update_order(graph, root);
        let rt = root.index;
        let mut k: usize = 0;
        while k < order.len()
            invariant
                old(graph).wf(),
                graph.wf(),
                graph.same_structure(old(graph)),
                old(graph).is_traversal(rt as int, order@),
                k <= order.len(),
                forall|j: int| 0 <= j < k && order@[j] == rt ==>
                    graph.world_of(rt as int) == old(graph).derived_world(rt as int),
                forall|j: int| 0 <= j < k && order@[j] != rt ==>
                    graph.world_of(#[trigger] order@[j] as int) == graph.derived_world(order@[j] as int),
                forall|i: int| 0 <= i < graph.len() && !order@.take(k as int).contains(i as usize)
                    ==> #[trigger] graph.world_of(i) == old(graph).world_of(i),
            decreases order.len() - k,
        {
            let node = order[k];
            let ghost g1 = *graph;
            proof {
                if node != rt {
                    assert(order@[k as int] == node);
                    let jp = choose|jp: int| 0 <= jp < k && Some(#[trigger] order@[jp]) == old(graph).parent_of(order@[k as int] as int);
                    assert(order@[jp] != node);
                } else {
                    assert(order@[0] == rt);
                    match old(graph).parent_of(rt as int) {
                        Some(p) => {
                            assert(old(graph).nodes@[rt as int].parent is Some);
                            if order@.take(k as int).contains(p) {
                                let j = choose|j: int| 0 <= j < k && order@.take(k as int)[j] == p;
                                assert(order@[j] == p);
                                assert(old(graph).in_subtree(rt as int, p as int));
                                old(graph).lemma_ancestor_not_in_subtree(rt as int, p);
                            }
                            assert(graph.world_of(p as int) == old(graph).world_of(p as int));
                        },
                        None => {},
                    }
                }
            }
            graph.derive_world(GameObject { index: node });
            proof {
                assert forall|j: int| 0 <= j < k + 1 && order@[j] != rt implies
                    graph.world_of(#[trigger] order@[j] as int) == graph.derived_world(order@[j] as int) by {
                    if j < k {
                        assert(order@[j] != node);
                        let jp = choose|jp: int| 0 <= jp < j && Some(#[trigger] order@[jp]) == old(graph).parent_of(order@[j] as int);
                        assert(order@[jp] != node);
                        assert(g1.world_of(order@[j] as int) == g1.derived_world(order@[j] as int));
                        assert(graph.world_of(order@[jp] as int) == g1.world_of(order@[jp] as int));
                        assert(graph.parent_of(order@[j] as int) == g1.parent_of(order@[j] as int));
                        assert(graph.local_of(order@[j] as int) == g1.local_of(order@[j] as int));
                    }
                }
                assert forall|i: int| 0 <= i < graph.len() && !order@.take(k + 1).contains(i as usize)
                    implies #[trigger] graph.world_of(i) == old(graph).world_of(i) by {
                    assert(order@.take(k + 1)[k as int] == node);
                    if order@.take(k as int).contains(i as usize) {
                        let j = choose|j: int| 0 <= j < k && order@.take(k as int)[j] == i as usize;
                        assert(order@.take(k + 1)[j] == i as usize);
                    }
                }
                if node != rt && order@.contains(rt) {
                    assert(order@[0] == rt);
                }
            }
            k = k + 1;
        }
        proof {
            assert(order@.take(order.len() as int) =~= order@);
            assert forall|i: int| 0 <= i < old(graph).len() && i != rt
                && #[trigger] old(graph).in_subtree(rt as int, i)
                implies graph.world_of(i) == graph.derived_world(i) by {
                let j = choose|j: int| 0 <= j < order.len() && order@[j] == i as usize;
                assert(order@[j] != rt);
            }
            assert(order@[0] == rt);
            assert forall|i: int| 0 <= i < old(graph).len() && !#[trigger] old(graph).in_subtree(rt as int, i)
                implies graph.world_of(i) == old(graph).world_of(i) by {
                if order@.contains(i as usize) {
                    let j = choose|j: int| 0 <= j < order.len() && order@[j] == i as usize;
                    assert(old(graph).in_subtree(rt as int, order@[j] as int));
                }
            }
        }
    }
}

impl SceneGraph {
    /// The parent of `root` does not lie in the subtree of `root`.
    proof fn lemma_ancestor_not_in_subtree(&self, root: int, p: usize)
        requires
            self.wf(),
            0 <= root < self.len(),
            self.parent_of(root) == Some(p),
        ensures
            !self.in_subtree(root, p as int),
    {
        assert(self.nodes@[root].parent is Some);
        if self.in_subtree(root, p as int) {
            self.lemma_subtree_depth(root, p as int);
        }
    }

    /// A node of the subtree of `root` is at least as deep as `root`.
    proof fn lemma_subtree_depth(&self, root: int, i: int)
        requires
            self.wf(),
            0 <= i < self.len(),
            self.in_subtree(root, i),
        ensures
            self.depth_of(root) <= self.depth_of(i),
        decreases self.depth_of(i),
    {
        if i != root {
            assert(self.nodes@[i].parent is Some);
            let p = self.parent_of(i)->0 as int;
            self.lemma_subtree_depth(root, p);
        }
    }
}

impl GameObjectNode {
    /// Makes `child` the last child of `root`. Refused, with the graph left as
    /// it was, when `child` already has a parent, or when `child` is `root` or
    /// one of its ancestors. Transforms are not touched.
    pub fn add_child(graph: &mut SceneGraph, root: GameObject, child: GameObject) -> (r: Result<(), SceneError>)
        requires
            old(graph).wf(),
            root.index < old(graph).len(),
            child.index < old(graph).len(),
        ensures
            final(graph).wf(),
            final(graph).len() == old(graph).len(),
            final(graph).identity_transform() == old(graph).identity_transform(),
            old(graph).parent_of(child.index as int) is Some ==> r == Err::<(), SceneError>(SceneError::AlreadyHasParent),
            old(graph).parent_of(child.index as int) is None && old(graph).in_subtree(child.index as int, root.index as int)
                ==> r == Err::<(), SceneError>(SceneError::WouldCreateCycle),
            r is Err ==> forall|i: int| 0 <= i < old(graph).len() ==> final(graph).node_unchanged(old(graph), i),
            r is Ok <==> (old(graph).parent_of(child.index as int) is None
                && !old(graph).in_subtree(child.index as int, root.index as int)),
            r is Ok ==> {
                &&& final(graph).children_of(root.index as int) == old(graph).children_of(root.index as int).push(child.index)
                &&& final(graph).parent_of(child.index as int) == Some(root.index)
                &&& final(graph).parent_of(root.index as int) == old(graph).parent_of(root.index as int)
                &&& final(graph).children_of(child.index as int) == old(graph).children_of(child.index as int)
                &&& forall|i: int| 0 <= i < old(graph).len() && i != root.index && i != child.index
                    ==> final(graph).node_unchanged(old(graph), i)
                &&& final(graph).same_structure_except_links(old(graph))
            },
    {
        let rt = root.index;
        let c = child.index;
        if graph.nodes[c].parent.is_some() {
            return Err(SceneError::AlreadyHasParent);
        }
        let mut cur: usize = rt;
        let mut done = false;
        let mut cyclic = false;
        while !done
            invariant
                graph.wf(),
                cur < graph.len(),
                c < graph.len(),
                !done ==> !cyclic,
                done ==> cyclic == graph.in_subtree(c as int, rt as int),
                !done ==> graph.in_subtree(c as int, rt as int) == graph.in_subtree(c as int, cur as int),
            decreases if done { 0 } else { graph.depth_of(cur as int) + 1 },
        {
            if cur == c {
                assert(graph.in_subtree(c as int, cur as int));
                cyclic = true;
                done = true;
            } else {
                match graph.nodes[cur].parent {
                    Some(p) => {
                        proof {
                            assert(graph.nodes@[cur as int].parent is Some);
                            assert(graph.in_subtree(c as int, cur as int) == graph.in_subtree(c as int, p as int));
                        }
                        cur = p;
                    },
                    None => {
                        assert(!graph.in_subtree(c as int, cur as int));
                        done = true;
                    },
                }
            }
        }
        if cyclic {
            return Err(SceneError::WouldCreateCycle);
        }
        let ghost g0 = *graph;
        proof {
            assert(!g0.children_of(rt as int).contains(c)) by {
                if g0.children_of(rt as int).contains(c) {
                    let k = choose|k: int| 0 <= k < g0.children_of(rt as int).len() && g0.children_of(rt as int)[k] == c;
                    assert(g0.nodes@[rt as int].children@[k] == c);
                }
            }
        }
        graph.nodes[rt].children.push(c);
        graph.nodes[c].parent = Some(rt);
        proof {
            let n = g0.len();
            let shift = g0.depth_of(rt as int) + 1;
            graph.depth@ = Seq::new(n, |i: int| g0.depth_of(i) + if g0.in_subtree(c as int, i) { shift } else { 0 });
            assert forall|i: int| #![trigger graph.nodes@[i].parent]
                0 <= i < graph.len() && graph.parent_of(i) is Some implies {
                    let p = graph.parent_of(i)->0 as int;
                    &&& 0 <= p < graph.len()
                    &&& graph.depth_of(p) < graph.depth_of(i)
                    &&& graph.children_of(p).contains(i as usize)
                } by {
                let p = graph.parent_of(i)->0 as int;
                if i == c {
                    assert(graph.children_of(rt as int).last() == c);
                } else {
                    assert(g0.nodes@[i].parent is Some);
                    assert(g0.in_subtree(c as int, i) == g0.in_subtree(c as int, p));
                    if p == rt {
                        let k = choose|k: int| 0 <= k < g0.children_of(p).len() && g0.children_of(p)[k] == i as usize;
                        assert(graph.children_of(p)[k] == i as usize);
                    }
                }
            }
            assert forall|i: int, k: int| #![trigger graph.nodes@[i].children@[k]]
                0 <= i < graph.len() && 0 <= k < graph.children_of(i).len() implies {
                    &&& (graph.children_of(i)[k] as int) < graph.len()
                    &&& graph.parent_of(graph.children_of(i)[k] as int) == Some(i as usize)
                } by {
                if !(i == rt && k == graph.children_of(i).len() - 1) {
                    assert(g0.nodes@[i].children@[k] == graph.children_of(i)[k]);
                    assert(graph.children_of(i)[k] != c);
                }
            }
            assert forall|i: int| #![trigger graph.nodes@[i].children]
                0 <= i < graph.len() implies graph.children_of(i).no_duplicates() by {
                if i == rt {
                    assert(g0.nodes@[i].children@.no_duplicates());
                }
            }
            assert forall|i: int| 0 <= i < g0.len() && i != rt && i != c implies
                graph.node_unchanged(&g0, i) by {}
        }
        Ok(())
    }

    /// Detaches `child` from `root`: it leaves `root`'s children and has no
    /// parent afterwards, keeping its own subtree. Refused, with the graph left
    /// as it was, when `child` is not a child of `root`.
    pub fn remove_child(graph: &mut SceneGraph, root: GameObject, child: GameObject) -> (r: Result<(), SceneError>)
        requires
            old(graph).wf(),
            root.index < old(graph).len(),
            child.index < old(graph).len(),
        ensures
            final(graph).wf(),
            final(graph).len() == old(graph).len(),
            final(graph).identity_transform() == old(graph).identity_transform(),
            r is Ok <==> old(graph).parent_of(child.index as int) == Some(root.index),
            r is Err ==> r == Err::<(), SceneError>(SceneError::NotAChild)
                && forall|i: int| 0 <= i < old(graph).len() ==> final(graph).node_unchanged(old(graph), i),
            r is Ok ==> final(graph).is_detach_of(old(graph), root.index as int, child.index as int),
    {
        let rt = root.index;
        let c = child.index;
        match graph.nodes[c].parent {
            Some(p) => {
                if p != rt {
                    return Err(SceneError::NotAChild);
                }
            },
            None => {
                return Err(SceneError::NotAChild);
            },
        }
        proof {
            assert(graph.nodes@[c as int].parent is Some);
        }
        let mut pos: usize = 0;
        let kid_count = graph.nodes[rt].children.len();
        while graph.nodes[rt].children[pos] != c
            invariant
                kid_count == graph.children_of(rt as int).len(),
                graph.wf(),
                rt < graph.len(),
                graph.children_of(rt as int).contains(c),
                pos < graph.children_of(rt as int).len(),
                forall|k: int| 0 <= k < pos ==> graph.children_of(rt as int)[k] != c,
            decreases graph.children_of(rt as int).len() - pos,
        {
            pos = pos + 1;
            proof {
                if pos == graph.children_of(rt as int).len() {
                    let k = choose|k: int| 0 <= k < graph.children_of(rt as int).len() && graph.children_of(rt as int)[k] == c;
                    assert(false);
                }
            }
        }
        let ghost g0 = *graph;
        graph.nodes[rt].children.remove(pos);
        graph.nodes[c].parent = None;
        proof {
            let old_kids = g0.children_of(rt as int);
            assert(graph.children_of(rt as int) == old_kids.remove(pos as int));
            assert forall|i: int| #![trigger graph.nodes@[i].parent]
                0 <= i < graph.len() && graph.parent_of(i) is Some implies {
                    let p = graph.parent_of(i)->0 as int;
                    &&& 0 <= p < graph.len()
                    &&& graph.depth_of(p) < graph.depth_of(i)
                    &&& graph.children_of(p).contains(i as usize)
                } by {
                let p = graph.parent_of(i)->0 as int;
                assert(g0.nodes@[i].parent is Some);
                if p == rt {
                    let k = choose|k: int| 0 <= k < old_kids.len() && old_kids[k] == i as usize;
                    assert(k != pos);
                    if k < pos {
                        assert(graph.children_of(p)[k] == i as usize);
                    } else {
                        assert(graph.children_of(p)[k - 1] == i as usize);
                    }
                }
            }
            assert forall|i: int, k: int| #![trigger graph.nodes@[i].children@[k]]
                0 <= i < graph.len() && 0 <= k < graph.children_of(i).len() implies {
                    &&& (graph.children_of(i)[k] as int) < graph.len()
                    &&& graph.parent_of(graph.children_of(i)[k] as int) == Some(i as usize)
                } by {
                if i == rt {
                    if k < pos {
                        assert(g0.nodes@[i].children@[k] == graph.children_of(i)[k]);
                        assert(old_kids[k] != c);
                    } else {
                        assert(g0.nodes@[i].children@[k + 1] == graph.children_of(i)[k]);
                        assert(old_kids[k + 1] != c);
                    }
                } else {
                    assert(g0.nodes@[i].children@[k] == graph.children_of(i)[k]);
                    if graph.children_of(i)[k] == c {
                        assert(g0.parent_of(c as int) == Some(i as usize));
                    }
                }
            }
            assert forall|i: int| #![trigger graph.nodes@[i].children]
                0 <= i < graph.len() implies graph.children_of(i).no_duplicates() by {
                if i == rt {
                    assert(g0.nodes@[i].children@.no_duplicates());
                    assert forall|a: int, b: int| 0 <= a < b < graph.children_of(i).len()
                        implies graph.children_of(i)[a] != graph.children_of(i)[b] by {
                        let a0 = if a < pos { a } else { a + 1 };
                        let b0 = if b < pos { b } else { b + 1 };
                        assert(old_kids[a0] != old_kids[b0]);
                    }
                }
            }
            assert forall|i: int| 0 <= i < g0.len() && i != rt && i != c implies
                graph.node_unchanged(&g0, i) by {}
        }
        Ok(())
    }
}

impl SceneGraph {
    /// Names, meshes, local and world transforms and behaviors are the same in
    /// both graphs; parent and child links may differ.
    pub open spec fn same_structure_except_links(&self, other: &SceneGraph) -> bool {
        &&& self.len() == other.len()
        &&& forall|i: int|
            #![trigger self.name_of(i)]
            #![trigger self.mesh_of(i)]
            #![trigger self.local_of(i)]
            #![trigger self.world_of(i)]
            #![trigger self.behaviors_of(i)]
            0 <= i < self.len() ==> {
            &&& self.name_of(i) == other.name_of(i)
            &&& self.mesh_of(i) == other.mesh_of(i)
            &&& self.local_of(i) == other.local_of(i)
            &&& self.world_of(i) == other.world_of(i)
            &&& self.behaviors_of(i) == other.behaviors_of(i)
        }
    }
}

impl SceneGraph {
    /// `self` is `before` after one update pass from `root`.
    pub open spec fn is_update_of(&self, before: &SceneGraph, root: int) -> bool {
        &&& self.same_structure(before)
        &&& self.world_of(root) == before.derived_world(root)
        &&& forall|i: int| 0 <= i < before.len() && i != root && #[trigger] before.in_subtree(root, i)
            ==> self.world_of(i) == self.derived_world(i)
        &&& forall|i: int| 0 <= i < before.len() && !#[trigger] before.in_subtree(root, i)
            ==> self.world_of(i) == before.world_of(i)
    }

    /// `self` is `before` after the world transform of `node` was derived.
    pub open spec fn is_derivation_of(&self, before: &SceneGraph, node: int) -> bool {
        &&& self.same_structure(before)
        &&& self.world_of(node) == before.derived_world(node)
        &&& forall|i: int| 0 <= i < before.len() && i != node ==>
            #[trigger] self.world_of(i) == before.world_of(i)
    }

    /// `self` is `before` with the local transform of `node` replaced by `m`.
    pub open spec fn is_local_set_of(&self, before: &SceneGraph, node: int, m: glam::Mat4) -> bool {
        &&& self.len() == before.len()
        &&& self.identity_transform() == before.identity_transform()
        &&& self.local_of(node) == m
        &&& forall|i: int| 0 <= i < before.len() && i != node ==> self.node_unchanged(before, i)
        &&& self.name_of(node) == before.name_of(node)
        &&& self.mesh_of(node) == before.mesh_of(node)
        &&& self.world_of(node) == before.world_of(node)
        &&& self.behaviors_of(node) == before.behaviors_of(node)
        &&& self.parent_of(node) == before.parent_of(node)
        &&& self.children_of(node) == before.children_of(node)
    }

    /// `self` is `before` with `child` taken out of the children of `root`
    /// and left without parent.
    pub open spec fn is_detach_of(&self, before: &SceneGraph, root: int, child: int) -> bool {
        &&& self.identity_transform() == before.identity_transform()
        &&& before.parent_of(child) == Some(root as usize)
        &&& exists|k: int| 0 <= k < before.children_of(root).len()
            && before.children_of(root)[k] == child
            && self.children_of(root) == before.children_of(root).remove(k)
        &&& self.parent_of(child) is None
        &&& self.children_of(child) == before.children_of(child)
        &&& root != child ==> self.parent_of(root) == before.parent_of(root)
        &&& forall|i: int| 0 <= i < before.len() && i != root && i != child
            ==> self.node_unchanged(before, i)
        &&& self.same_structure_except_links(before)
    }
}

impl SceneGraph {
    /// The behaviors of the nodes of `o`, node by node in the order of `o`,
    /// each node's in attachment order.
    pub open spec fn awake_calls(&self, o: Seq<usize>) -> Seq<usize>
        decreases o.len(),
    {
        if o.len() == 0 {
            Seq::empty()
        } else {
            self.awake_calls(o.drop_last()) + self.behaviors_of(o.last() as int)
        }
    }
}

impl GameObjectNode {
    /// The behaviors whose `awake` the initialization pass from `root` calls,
    /// in call order: every node of the subtree once, each after its parent,
    /// and each node's behaviors in attachment order.
    pub fn init(graph: &SceneGraph, root: GameObject) -> (r: Vec<usize>)
        requires
            graph.wf(),
            root.index < graph.len(),
        ensures
            exists|o: Seq<usize>| graph.is_traversal(root.index as int, o) && r@ == graph.awake_calls(o),
    {
        let order = GameObjectNode::update_order(graph, root);
        let mut calls: Vec<usize> = Vec::new();
        let mut k: usize = 0;
        while k < order.len()
            invariant
                graph.wf(),
                k <= order.len(),
                forall|j: int| 0 <= j < order.len() ==> (#[trigger] order@[j] as int) < graph.len(),
                calls@ == graph.awake_calls(order@.take(k as int)),
            decreases order.len() - k,
        {
            let node = order[k];
            let behaviors = &graph.nodes[node].behavior;
            let ghost base = calls@;
            let mut m: usize = 0;
            while m < behaviors.len()
                invariant
                    m <= behaviors.len(),
                    calls@ == base + behaviors@.take(m as int),
                decreases behaviors.len() - m,
            {
                calls.push(behaviors[m]);
                proof {
                    assert(behaviors@.take(m + 1) =~= behaviors@.take(m as int).push(behaviors@[m as int]));
                }
                m = m + 1;
            }
            proof {
                assert(behaviors@.take(m as int) =~= behaviors@);
                assert(order@.take(k + 1).drop_last() =~= order@.take(k as int));
                assert(order@.take(k + 1).last() == node);
            }
            k = k + 1;
        }
        proof {
            assert(order@.take(order.len() as int) =~= order@);
        }
        calls
    }
}

/// After an update pass from a root without parent, the world transform of
/// every node of its subtree is the composition of the local transforms along
/// its ancestor chain, from the root down to the node itself.
pub proof fn lemma_update_composes_ancestors(before: SceneGraph, after: SceneGraph, root: int)
    requires
        before.wf(),
        after.wf(),
        0 <= root < before.len(),
        before.parent_of(root) is None,
        after.is_update_of(&before, root),
    ensures
        forall|i: int| 0 <= i < before.len() && #[trigger] before.in_subtree(root, i)
            ==> after.world_of(i) == after.chained_world(i),
{
    assert forall|i: int| 0 <= i < before.len() && #[trigger] before.in_subtree(root, i)
        implies after.world_of(i) == after.chained_world(i) by {
        lemma_update_composes_at(before, after, root, i);
    }
}

proof fn lemma_update_composes_at(before: SceneGraph, after: SceneGraph, root: int, i: int)
    requires
        before.wf(),
        after.wf(),
        0 <= root < before.len(),
        before.parent_of(root) is None,
        after.is_update_of(&before, root),
        0 <= i < before.len(),
        before.in_subtree(root, i),
    ensures
        after.world_of(i) == after.chained_world(i),
    decreases before.depth_of(i),
{
    assert(after.parent_of(i) == before.parent_of(i));
    assert(after.local_of(i) == before.local_of(i));
    if i != root {
        assert(before.nodes@[i].parent is Some);
        let p = before.parent_of(i)->0 as int;
        lemma_update_composes_at(before, after, root, p);
        assert(after.nodes@[i].parent is Some);
    }
}

/// After an update pass from a root without parent, the root's world
/// transform is its local transform.
pub proof fn lemma_update_root_world_is_local(before: SceneGraph, after: SceneGraph, root: int)
    requires
        before.wf(),
        0 <= root < before.len(),
        before.parent_of(root) is None,
        after.is_update_of(&before, root),
    ensures
        after.world_of(root) == after.local_of(root),
{
    assert(after.local_of(root) == before.local_of(root));
}

/// Once `child` is detached from `parent`, an update pass from a root without
/// parent, other than `child`, gives each node of the remaining tree the same
/// world transform as its ancestor chain before the detachment, a chain that
/// passes through no node of the detached subtree.
pub proof fn lemma_detach_leaves_remaining_tree(
    g0: SceneGraph,
    g1: SceneGraph,
    g2: SceneGraph,
    parent: int,
    child: int,
    root: int,
)
    requires
        g0.wf(),
        g1.wf(),
        g2.wf(),
        0 <= parent < g0.len(),
        0 <= child < g0.len(),
        0 <= root < g0.len(),
        g1.is_detach_of(&g0, parent, child),
        g1.parent_of(root) is None,
        root != child,
        g2.is_update_of(&g1, root),
    ensures
        forall|i: int| 0 <= i < g1.len() && #[trigger] g1.in_subtree(root, i) ==> {
            &&& g2.world_of(i) == g0.chained_world(i)
            &&& !g0.in_subtree(child, i)
        },
{
    assert forall|i: int| 0 <= i < g1.len() && #[trigger] g1.in_subtree(root, i) implies {
        &&& g2.world_of(i) == g0.chained_world(i)
        &&& !g0.in_subtree(child, i)
    } by {
        lemma_detach_at(g0, g1, g2, parent, child, root, i);
    }
}

proof fn lemma_detach_at(g0: SceneGraph, g1: SceneGraph, g2: SceneGraph, parent: int, child: int, root: int, i: int)
    requires
        g0.wf(),
        g1.wf(),
        g2.wf(),
        0 <= parent < g0.len(),
        0 <= child < g0.len(),
        0 <= root < g0.len(),
        g1.is_detach_of(&g0, parent, child),
        g1.parent_of(root) is None,
        root != child,
        g2.is_update_of(&g1, root),
        0 <= i < g1.len(),
        g1.in_subtree(root, i),
    ensures
        g2.world_of(i) == g0.chained_world(i),
        !g0.in_subtree(child, i),
    decreases g1.depth_of(i),
{
    assert(g1.local_of(i) == g0.local_of(i));
    assert(g2.local_of(i) == g1.local_of(i));
    assert(g2.parent_of(i) == g1.parent_of(i));
    if i == root {
        if root != parent {
            assert(g1.node_unchanged(&g0, root));
        }
    } else {
        assert(g1.nodes@[i].parent is Some);
        let p = g1.parent_of(i)->0 as int;
        lemma_detach_at(g0, g1, g2, parent, child, root, p);
        assert(i != child);
        if i != parent {
            assert(g1.node_unchanged(&g0, i));
        }
        assert(g0.parent_of(i) == g1.parent_of(i));
        assert(g0.nodes@[i].parent is Some);
    }
}

/// A local transform set on a node before its world transform is derived is
/// seen by that derivation: the node's world transform becomes the new local
/// transform, composed with the parent's world transform if it has a parent.
pub proof fn lemma_local_change_seen_in_same_pass(
    g0: SceneGraph,
    g1: SceneGraph,
    g2: SceneGraph,
    node: int,
    m: glam::Mat4,
)
    requires
        g0.wf(),
        0 <= node < g0.len(),
        g1.is_local_set_of(&g0, node, m),
        g2.is_derivation_of(&g1, node),
    ensures
        g2.local_of(node) == m,
        g2.world_of(node) == match g0.parent_of(node) {
            Some(p) => mat_mul(g0.world_of(p as int), m),
            None => m,
        },
{
    if let Some(p) = g0.parent_of(node) {
        assert(g0.nodes@[node].parent is Some);
        assert(p != node);
        assert(g1.node_unchanged(&g0, p as int));
    }
}

} // verus!
