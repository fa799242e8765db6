//! The part of the scene graph that the painter reads: handles, nodes and mesh sizes.

use vstd::prelude::*;

verus! {

/// A slot of an arena together with the generation of what was stored there.
#[derive(Clone, Copy, Debug, PartialEq, Eq, Structural)]
pub struct Handle {
    pub index: u32,
    pub generation: u32,
}

impl Handle {
    /// The handle as one number; different handles have different codes.
    pub open spec fn code(self) -> int {
        self.generation * 0x1_0000_0000 + self.index
    }

    /// The handle with a given code.
    pub open spec fn from_code(c: int) -> Handle {
        Handle { index: (c % 0x1_0000_0000) as u32, generation: (c / 0x1_0000_0000) as u32 }
    }

    /// Slot and generation.
    pub fn key(&self) -> (k: (u32, u32))
        ensures
            k == (self.index, self.generation),
    {
        (self.index, self.generation)
    }

    /// The handle as one number.
    pub fn packed(&self) -> (k: u64)
        ensures
            k == self.code(),
            Handle::from_code(k as int) == *self,
    {
        self.generation as u64 * 0x1_0000_0000 + self.index as u64
    }
}

/// A node: its place in the hierarchy and what it shows.
#[derive(Clone, Copy, Debug)]
pub struct Node {
    pub handle: Handle,
    pub parent: Option<Handle>,
    pub mesh: Option<Handle>,
    pub material: Option<Handle>,
    pub visible: bool,
}

/// A mesh: the length of its index list and the version of its contents.
#[derive(Clone, Copy, Debug)]
pub struct MeshInfo {
    pub handle: Handle,
    pub index_count: usize,
    pub version: u64,
}

/// Nodes and meshes in the order in which their arenas list them.
pub struct Scene {
    pub nodes: Vec<Node>,
    pub meshes: Vec<MeshInfo>,
}

/// Position of the first node with handle `h`.
pub open spec fn node_at(nodes: Seq<Node>, h: Handle) -> Option<int>
    decreases nodes.len(),
{
    if nodes.len() == 0 {
        None
    } else {
        match node_at(nodes.drop_last(), h) {
            Some(i) => Some(i),
            None => if nodes.last().handle == h {
                Some(nodes.len() - 1)
            } else {
                None
            },
        }
    }
}

/// Position of the first mesh with handle `h`.
pub open spec fn mesh_at(meshes: Seq<MeshInfo>, h: Handle) -> Option<int>
    decreases meshes.len(),
{
    if meshes.len() == 0 {
        None
    } else {
        match mesh_at(meshes.drop_last(), h) {
            Some(i) => Some(i),
            None => if meshes.last().handle == h {
                Some(meshes.len() - 1)
            } else {
                None
            },
        }
    }
}

pub proof fn lemma_node_at(nodes: Seq<Node>, h: Handle)
    ensures
        match node_at(nodes, h) {
            Some(i) => 0 <= i < nodes.len() && nodes[i].handle == h && forall|j: int|
                0 <= j < i ==> (#[trigger] nodes[j]).handle != h,
            None => forall|j: int| 0 <= j < nodes.len() ==> (#[trigger] nodes[j]).handle != h,
        },
    decreases nodes.len(),
{
    if nodes.len() > 0 {
        lemma_node_at(nodes.drop_last(), h);
        assert forall|j: int| 0 <= j < nodes.len() - 1 implies #[trigger] nodes[j]
            == nodes.drop_last()[j] by {}
    }
}

pub proof fn lemma_mesh_at(meshes: Seq<MeshInfo>, h: Handle)
    ensures
        match mesh_at(meshes, h) {
            Some(i) => 0 <= i < meshes.len() && meshes[i].handle == h && forall|j: int|
                0 <= j < i ==> (#[trigger] meshes[j]).handle != h,
            None => forall|j: int| 0 <= j < meshes.len() ==> (#[trigger] meshes[j]).handle != h,
        },
    decreases meshes.len(),
{
    if meshes.len() > 0 {
        lemma_mesh_at(meshes.drop_last(), h);
        assert forall|j: int| 0 <= j < meshes.len() - 1 implies #[trigger] meshes[j]
            == meshes.drop_last()[j] by {}
    }
}

impl Scene {
    /// The node with handle `h`.
    pub open spec fn node(&self, h: Handle) -> Option<Node> {
        match node_at(self.nodes@, h) {
            Some(i) => Some(self.nodes@[i]),
            None => None,
        }
    }

    /// The mesh with handle `h`.
    pub open spec fn mesh(&self, h: Handle) -> Option<MeshInfo> {
        match mesh_at(self.meshes@, h) {
            Some(i) => Some(self.meshes@[i]),
            None => None,
        }
    }

    /// The mesh that node `h` shows, where both are in the scene.
    pub open spec fn shown(&self, h: Handle) -> Option<MeshInfo> {
        match self.node(h) {
            Some(n) => match n.mesh {
                Some(m) => self.mesh(m),
                None => None,
            },
            None => None,
        }
    }

    /// The mesh that node `h` shows, unless the node is hidden.
    pub open spec fn drawn(&self, h: Handle) -> Option<MeshInfo> {
        match self.node(h) {
            Some(n) => if n.visible {
                self.shown(h)
            } else {
                None
            },
            None => None,
        }
    }

    /// Finds a node by its handle.
    pub fn find_node(&self, h: Handle) -> (r: Option<usize>)
        ensures
            match r {
                Some(i) => node_at(self.nodes@, h) == Some(i as int) && i < self.nodes.len(),
                None => node_at(self.nodes@, h) is None,
            },
    {
        let mut i: usize = 0;
        while i < self.nodes.len()
            invariant
                i <= self.nodes.len(),
                forall|j: int| 0 <= j < i ==> (#[trigger] self.nodes@[j]).handle != h,
            decreases self.nodes.len() - i,
        {
            if self.nodes[i].handle == h {
                proof {
                    lemma_node_at(self.nodes@, h);
                }
                return Some(i);
            }
            i += 1;
        }
        proof {
            lemma_node_at(self.nodes@, h);
        }
        None
    }

    /// Finds a mesh by its handle.
    pub fn find_mesh(&self, h: Handle) -> (r: Option<usize>)
        ensures
            match r {
                Some(i) => mesh_at(self.meshes@, h) == Some(i as int) && i < self.meshes.len(),
                None => mesh_at(self.meshes@, h) is None,
            },
    {
        let mut i: usize = 0;
        while i < self.meshes.len()
            invariant
                i <= self.meshes.len(),
                forall|j: int| 0 <= j < i ==> (#[trigger] self.meshes@[j]).handle != h,
            decreases self.meshes.len() - i,
        {
            if self.meshes[i].handle == h {
                proof {
                    lemma_mesh_at(self.meshes@, h);
                }
                return Some(i);
            }
            i += 1;
        }
        proof {
            lemma_mesh_at(self.meshes@, h);
        }
        None
    }

    /// The mesh that node `h` shows, where both are in the scene.
    pub fn mesh_of(&self, h: Handle) -> (r: Option<MeshInfo>)
        ensures
            r == self.shown(h),
    {
        match self.find_node(h) {
            Some(i) => match self.nodes[i].mesh {
                Some(m) => match self.find_mesh(m) {
                    Some(k) => Some(self.meshes[k]),
                    None => None,
                },
                None => None,
            },
            None => None,
        }
    }

    /// The mesh that node `h` shows, unless the node is hidden.
    pub fn visible_mesh_of(&self, h: Handle) -> (r: Option<MeshInfo>)
        ensures
            r == self.drawn(h),
    {
        match self.find_node(h) {
            Some(i) => if self.nodes[i].visible {
                self.mesh_of(h)
            } else {
                None
            },
            None => None,
        }
    }
}

/// The hierarchy alone: each node's handle and its parent.
pub open spec fn links(nodes: Seq<Node>) -> Seq<(Handle, Option<Handle>)> {
    Seq::new(nodes.len(), |i: int| (nodes[i].handle, nodes[i].parent))
}

/// `height` grows from every node to its parent.
pub open spec fn grows_upward(
    links: Seq<(Handle, Option<Handle>)>,
    height: spec_fn(Handle) -> nat,
) -> bool {
    forall|i: int|
        0 <= i < links.len() ==> match (#[trigger] links[i]).1 {
            Some(p) => height(links[i].0) < height(p),
            None => true,
        }
}

/// No node is its own ancestor.
pub open spec fn is_forest(links: Seq<(Handle, Option<Handle>)>) -> bool {
    exists|height: spec_fn(Handle) -> nat| #[trigger] grows_upward(links, height)
}

/// Some node of a list has the handle.
pub open spec fn is_listed(nodes: Seq<Node>, h: Handle) -> bool {
    exists|i: int| 0 <= i < nodes.len() && (#[trigger] nodes[i]).handle == h
}

/// The parent of a node is in a list.
pub open spec fn hangs(nodes: Seq<Node>, n: Node) -> bool {
    match n.parent {
        Some(p) => is_listed(nodes, p),
        None => false,
    }
}

fn is_hanging(nodes: &Vec<Node>, n: Node) -> (r: bool)
    ensures
        r == hangs(nodes@, n),
{
    let p = match n.parent {
        Some(p) => p,
        None => {
            return false;
        },
    };
    let mut i: usize = 0;
    while i < nodes.len()
        invariant
            i <= nodes@.len(),
            n.parent == Some(p),
            forall|k: int| 0 <= k < i ==> (#[trigger] nodes@[k]).handle != p,
        decreases nodes@.len() - i,
    {
        if nodes[i].handle == p {
            return true;
        }
        i += 1;
    }
    false
}

/// More than the height of each node of a list.
spec fn top(height: spec_fn(Handle) -> nat, nodes: Seq<Node>) -> nat
    decreases nodes.len(),
{
    if nodes.len() == 0 {
        0
    } else {
        let rest = top(height, nodes.drop_last());
        let own = height(nodes.last().handle) + 1;
        if own > rest {
            own
        } else {
            rest
        }
    }
}

proof fn lemma_top(height: spec_fn(Handle) -> nat, nodes: Seq<Node>)
    ensures
        forall|i: int|
            0 <= i < nodes.len() ==> height((#[trigger] nodes[i]).handle) < top(height, nodes),
        nodes.len() > 0 ==> exists|i: int|
            0 <= i < nodes.len() && height((#[trigger] nodes[i]).handle) + 1 == top(height, nodes),
    decreases nodes.len(),
{
    if nodes.len() > 0 {
        let rest = nodes.drop_last();
        lemma_top(height, rest);
        assert(nodes[nodes.len() - 1] == nodes.last());
        assert forall|i: int| 0 <= i < nodes.len() implies height((#[trigger] nodes[i]).handle)
            < top(height, nodes) by {
            if i < rest.len() {
                assert(rest[i] == nodes[i]);
            }
        }
        if height(nodes.last().handle) + 1 <= top(height, rest) {
            if rest.len() > 0 {
                let i = choose|i: int|
                    0 <= i < rest.len() && height((#[trigger] rest[i]).handle) + 1 == top(
                        height,
                        rest,
                    );
                assert(nodes[i] == rest[i]);
            }
        }
    }
}

/// Taking away the nodes whose parents are not in the list makes no difference.
proof fn lemma_peel(left: Seq<Node>, next: Seq<Node>)
    requires
        forall|n: Node| #[trigger] next.contains(n) <==> left.contains(n) && hangs(left, n),
    ensures
        is_forest(links(left)) == is_forest(links(next)),
{
    if is_forest(links(left)) {
        let height = choose|height: spec_fn(Handle) -> nat| #[trigger]
            grows_upward(links(left), height);
        assert forall|j: int| 0 <= j < links(next).len() implies match (#[trigger] links(
            next,
        )[j]).1 {
            Some(p) => height(links(next)[j].0) < height(p),
            None => true,
        } by {
            assert(next.contains(next[j]));
            let i = choose|i: int| 0 <= i < left.len() && left[i] == next[j];
            assert(links(left)[i] == links(next)[j]);
        }
        assert(grows_upward(links(next), height));
    }
    if is_forest(links(next)) {
        let height = choose|height: spec_fn(Handle) -> nat| #[trigger]
            grows_upward(links(next), height);
        lemma_top(height, left);
        let higher = |h: Handle|
            if is_listed(left, h) {
                height(h)
            } else {
                top(height, left)
            };
        assert forall|i: int| 0 <= i < links(left).len() implies match (#[trigger] links(
            left,
        )[i]).1 {
            Some(p) => higher(links(left)[i].0) < higher(p),
            None => true,
        } by {
            let n = left[i];
            assert(left.contains(n));
            assert(is_listed(left, n.handle));
            if hangs(left, n) {
                assert(next.contains(n));
                let j = choose|j: int| 0 <= j < next.len() && next[j] == n;
                assert(links(next)[j] == links(left)[i]);
            }
        }
        assert(grows_upward(links(left), higher));
    }
}

/// Where every node has its parent in the list, there is a cycle.
proof fn lemma_stuck(left: Seq<Node>)
    requires
        left.len() > 0,
        forall|i: int| 0 <= i < left.len() ==> hangs(left, #[trigger] left[i]),
    ensures
        !is_forest(links(left)),
{
    if is_forest(links(left)) {
        let height = choose|height: spec_fn(Handle) -> nat| #[trigger]
            grows_upward(links(left), height);
        lemma_top(height, left);
        let i = choose|i: int|
            0 <= i < left.len() && height((#[trigger] left[i]).handle) + 1 == top(height, left);
        assert(hangs(left, left[i]));
        let p = left[i].parent->0;
        let k = choose|k: int| 0 <= k < left.len() && (#[trigger] left[k]).handle == p;
        assert(links(left)[i].1 == Some(p));
        assert(height(left[k].handle) < top(height, left));
    }
}

/// Whether no node is its own ancestor: takes away what has no parent in the list, until nothing
/// changes.
pub fn check_forest(nodes: &Vec<Node>) -> (r: bool)
    ensures
        r == is_forest(links(nodes@)),
{
    let mut left: Vec<Node> = Vec::new();
    let mut c: usize = 0;
    while c < nodes.len()
        invariant
            c <= nodes@.len(),
            left@ =~= nodes@.take(c as int),
        decreases nodes@.len() - c,
    {
        left.push(nodes[c]);
        c += 1;
    }
    assert(left@ =~= nodes@);
    while left.len() > 0
        invariant
            is_forest(links(left@)) == is_forest(links(nodes@)),
        decreases left@.len(),
    {
        let mut next: Vec<Node> = Vec::new();
        let mut i: usize = 0;
        while i < left.len()
            invariant
                i <= left@.len(),
                next@.len() <= i,
                next@.len() == i ==> forall|k: int| 0 <= k < i ==> hangs(left@, #[trigger] left@[k]),
                forall|n: Node| #[trigger]
                    next@.contains(n) <==> left@.take(i as int).contains(n) && hangs(left@, n),
            decreases left@.len() - i,
        {
            let n = left[i];
            let ghost before = next@;
            let hanging = is_hanging(&left, n);
            if hanging {
                next.push(n);
            }
            proof {
                crate::tables::lemma_take_contains(left@, i as int);
                assert forall|m: Node| #[trigger] next@.contains(m) <==> left@.take(
                    i + 1,
                ).contains(m) && hangs(left@, m) by {
                    if hanging {
                        assert(next@[before.len() as int] == n);
                        if before.contains(m) {
                            let k = choose|k: int| 0 <= k < before.len() && before[k] == m;
                            assert(next@[k] == m);
                        }
                        if next@.contains(m) && m != n {
                            let k = choose|k: int| 0 <= k < next@.len() && next@[k] == m;
                            assert(before[k] == m);
                        }
                    }
                }
            }
            i += 1;
        }
        proof {
            assert(left@.take(i as int) =~= left@);
            lemma_peel(left@, next@);
        }
        if next.len() == left.len() {
            proof {
                lemma_stuck(left@);
            }
            return false;
        }
        left = next;
    }
    assert(grows_upward(links(left@), |h: Handle| 0nat));
    true
}

/// `h` and everything below it: a node before its children, later siblings first.
pub open spec fn branch(
    links: Seq<(Handle, Option<Handle>)>,
    height: spec_fn(Handle) -> nat,
    h: Handle,
) -> Seq<Handle>
    decreases height(h), links.len() + 1,
{
    seq![h] + branches(links, height, links.len(), h)
}

/// The branches of those children of `h` that are among the first `n` links, last one first.
pub open spec fn branches(
    links: Seq<(Handle, Option<Handle>)>,
    height: spec_fn(Handle) -> nat,
    n: nat,
    h: Handle,
) -> Seq<Handle>
    decreases height(h), n,
{
    if n == 0 {
        Seq::empty()
    } else {
        let (child, parent) = links[n - 1];
        let rest = branches(links, height, (n - 1) as nat, h);
        if parent == Some(h) && height(child) < height(h) {
            branch(links, height, child) + rest
        } else {
            rest
        }
    }
}

/// `h` and everything below it, in the order of a depth-first walk.
pub open spec fn subtree(links: Seq<(Handle, Option<Handle>)>, h: Handle) -> Seq<Handle> {
    branch(links, choose|height: spec_fn(Handle) -> nat| #[trigger] grows_upward(links, height), h)
}

/// The branches of a stack of handles, the top of the stack first.
spec fn pending(
    links: Seq<(Handle, Option<Handle>)>,
    height: spec_fn(Handle) -> nat,
    stack: Seq<Handle>,
) -> Seq<Handle>
    decreases stack.len(),
{
    if stack.len() == 0 {
        Seq::empty()
    } else {
        branch(links, height, stack.last()) + pending(links, height, stack.drop_last())
    }
}

/// The handles of a subtree, in the order of a depth-first walk.
pub fn walk_subtree(nodes: &Vec<Node>, root: Handle) -> (order: Vec<Handle>)
    requires
        is_forest(links(nodes@)),
    ensures
        order@ == subtree(links(nodes@), root),
{
    let ghost ls = links(nodes@);
    let ghost height = choose|height: spec_fn(Handle) -> nat| #[trigger] grows_upward(ls, height);
    let mut order: Vec<Handle> = Vec::new();
    let mut stack: Vec<Handle> = Vec::new();
    stack.push(root);
    let ghost whole = branch(ls, height, root);
    proof {
        assert(stack@.drop_last() =~= Seq::<Handle>::empty());
        assert(pending(ls, height, stack@.drop_last()) =~= Seq::<Handle>::empty());
        assert(pending(ls, height, stack@) =~= whole);
        assert(order@ + pending(ls, height, stack@) =~= whole);
    }
    while stack.len() > 0
        invariant
            ls == links(nodes@),
            grows_upward(ls, height),
            order@ + pending(ls, height, stack@) == whole,
        decreases pending(ls, height, stack@).len(),
    {
        let ghost before = stack@;
        let h = stack[stack.len() - 1];
        stack.pop();
        let ghost rest = pending(ls, height, stack@);
        let ghost seen = order@;
        proof {
            assert(stack@ =~= before.drop_last());
            assert(branches(ls, height, 0, h) + rest =~= rest);
        }
        order.push(h);
        let mut i: usize = 0;
        while i < nodes.len()
            invariant
                i <= nodes.len(),
                ls == links(nodes@),
                grows_upward(ls, height),
                pending(ls, height, stack@) == branches(ls, height, i as nat, h) + rest,
            decreases nodes.len() - i,
        {
            let ghost held = stack@;
            if let Some(p) = nodes[i].parent {
                if p == h {
                    stack.push(nodes[i].handle);
                    proof {
                        assert(stack@.drop_last() =~= held);
                        assert(ls[i as int] == (nodes@[i as int].handle, nodes@[i as int].parent));
                        assert(pending(ls, height, stack@) =~= branches(
                            ls,
                            height,
                            (i + 1) as nat,
                            h,
                        ) + rest);
                    }
                } else {
                    assert(ls[i as int].1 == Some(p));
                }
            } else {
                assert(ls[i as int].1 is None);
            }
            i += 1;
        }
        proof {
            assert(seq![h] + (branches(ls, height, ls.len(), h) + rest) =~= branch(ls, height, h)
                + rest);
            assert(seen + (seq![h] + pending(ls, height, stack@)) =~= order@ + pending(
                ls,
                height,
                stack@,
            ));
            assert(pending(ls, height, before).len() == 1 + pending(ls, height, stack@).len());
        }
    }
    assert(pending(ls, height, stack@) =~= Seq::<Handle>::empty());
    assert(order@ =~= whole);
    order
}

/// Whether the node with handle `h` is in the list and shows a mesh.
pub open spec fn shows_mesh(nodes: Seq<Node>, h: Handle) -> bool {
    match node_at(nodes, h) {
        Some(i) => nodes[i].mesh is Some,
        None => false,
    }
}

/// The nodes of a subtree that show a mesh, in the order of a depth-first walk. A root that is
/// not in the scene has none.
pub open spec fn mesh_nodes(nodes: Seq<Node>, root: Option<Handle>) -> Seq<Handle> {
    match root {
        Some(r) => if node_at(nodes, r) is Some {
            subtree(links(nodes), r).filter(|h: Handle| shows_mesh(nodes, h))
        } else {
            Seq::empty()
        },
        None => Seq::empty(),
    }
}

/// The nodes below `root`, itself among them, that show a mesh.
pub fn collect_mesh_nodes(scene: &Scene, root: Option<Handle>) -> (out: Vec<Handle>)
    requires
        is_forest(links(scene.nodes@)),
    ensures
        out@ == mesh_nodes(scene.nodes@, root),
{
    let mut out: Vec<Handle> = Vec::new();
    let root = match root {
        Some(r) => r,
        None => {
            return out;
        },
    };
    if scene.find_node(root).is_none() {
        return out;
    }
    let order = walk_subtree(&scene.nodes, root);
    let ghost keep = |h: Handle| shows_mesh(scene.nodes@, h);
    let mut i: usize = 0;
    proof {
        reveal_with_fuel(Seq::filter, 1);
        assert(order@.take(0).filter(keep) =~= Seq::<Handle>::empty());
    }
    while i < order.len()
        invariant
            i <= order.len(),
            keep == (|h: Handle| shows_mesh(scene.nodes@, h)),
            out@ == order@.take(i as int).filter(keep),
        decreases order.len() - i,
    {
        proof {
            assert(order@.take(i + 1).drop_last() =~= order@.take(i as int));
            assert(order@.take(i + 1).last() == order@[i as int]);
            reveal_with_fuel(Seq::filter, 1);
        }
        if let Some(k) = scene.find_node(order[i]) {
            if scene.nodes[k].mesh.is_some() {
                out.push(order[i]);
            }
        }
        i += 1;
    }
    assert(order@.take(i as int) =~= order@);
    out
}

/// Shows or hides a node and everything below it.
pub fn set_subtree_visible(scene: &mut Scene, root: Handle, visible: bool)
    requires
        is_forest(links(old(scene).nodes@)),
    ensures
        final(scene).meshes == old(scene).meshes,
        final(scene).nodes@ == switched(
            old(scene).nodes@,
            subtree(links(old(scene).nodes@), root).to_set(),
            visible,
        ),
{
    let order = walk_subtree(&scene.nodes, root);
    let ghost start = scene.nodes@;
    let ghost meshes = scene.meshes;
    let ghost group = order@.to_set();
    let mut i: usize = 0;
    while i < scene.nodes.len()
        invariant
            i <= scene.nodes.len(),
            scene.nodes.len() == start.len(),
            scene.meshes == meshes,
            group == order@.to_set(),
            forall|j: int|
                0 <= j < i ==> scene.nodes@[j] == switched(start, group, visible)[j],
            forall|j: int| i <= j < start.len() ==> scene.nodes@[j] == start[j],
        decreases scene.nodes.len() - i,
    {
        let node = scene.nodes[i];
        if contains_handle(&order, node.handle) {
            scene.nodes.set(i, Node { visible, ..node });
        }
        i += 1;
    }
    assert(scene.nodes@ =~= switched(start, group, visible));
}

/// Shows or hides a node.
pub fn set_node_visible(scene: &mut Scene, h: Handle, visible: bool)
    ensures
        final(scene).meshes == old(scene).meshes,
        final(scene).nodes@ == switched(old(scene).nodes@, set![h], visible),
{
    let ghost start = scene.nodes@;
    let ghost meshes = scene.meshes;
    let mut i: usize = 0;
    while i < scene.nodes.len()
        invariant
            i <= scene.nodes.len(),
            scene.nodes.len() == start.len(),
            scene.meshes == meshes,
            forall|j: int|
                0 <= j < i ==> scene.nodes@[j] == switched(start, set![h], visible)[j],
            forall|j: int| i <= j < start.len() ==> scene.nodes@[j] == start[j],
        decreases scene.nodes.len() - i,
    {
        let node = scene.nodes[i];
        if node.handle == h {
            scene.nodes.set(i, Node { visible, ..node });
        }
        i += 1;
    }
    assert(scene.nodes@ =~= switched(start, set![h], visible));
}

/// Showing and hiding moves no node in the tree.
pub proof fn law_visibility_moves_nothing(nodes: Seq<Node>, group: Set<Handle>, visible: bool)
    ensures
        links(switched(nodes, group, visible)) == links(nodes),
{
    assert(links(switched(nodes, group, visible)) =~= links(nodes));
}

/// The nodes with the visibility of those in `group` replaced.
pub open spec fn switched(nodes: Seq<Node>, group: Set<Handle>, visible: bool) -> Seq<Node> {
    nodes.map_values(
        |n: Node|
            if group.contains(n.handle) {
                Node { visible, ..n }
            } else {
                n
            },
    )
}

/// Whether a handle is in a list.
pub fn contains_handle(list: &Vec<Handle>, h: Handle) -> (r: bool)
    ensures
        r == list@.contains(h),
{
    let mut i: usize = 0;
    while i < list.len()
        invariant
            i <= list.len(),
            forall|j: int| 0 <= j < i ==> list@[j] != h,
        decreases list.len() - i,
    {
        if list[i] == h {
            return true;
        }
        i += 1;
    }
    false
}

/// Takes a node and everything below it out of the scene. Returns the handles in the order in
/// which the nodes go: a node after everything below it.
pub fn remove_subtree(scene: &mut Scene, root: Handle) -> (gone: Vec<Handle>)
    requires
        is_forest(links(old(scene).nodes@)),
    ensures
        gone@ == subtree(links(old(scene).nodes@), root).reverse(),
        final(scene).meshes == old(scene).meshes,
        final(scene).nodes@ == old(scene).nodes@.filter(
            |n: Node| !subtree(links(old(scene).nodes@), root).contains(n.handle),
        ),
{
    let order = walk_subtree(&scene.nodes, root);
    let ghost keep = |n: Node| !order@.contains(n.handle);
    let mut nodes: Vec<Node> = Vec::new();
    let mut i: usize = 0;
    proof {
        reveal_with_fuel(Seq::filter, 1);
        assert(scene.nodes@.take(0).filter(keep) =~= Seq::<Node>::empty());
    }
    while i < scene.nodes.len()
        invariant
            i <= scene.nodes.len(),
            keep == (|n: Node| !order@.contains(n.handle)),
            nodes@ == scene.nodes@.take(i as int).filter(keep),
        decreases scene.nodes.len() - i,
    {
        proof {
            assert(scene.nodes@.take(i + 1).drop_last() =~= scene.nodes@.take(i as int));
            assert(scene.nodes@.take(i + 1).last() == scene.nodes@[i as int]);
            reveal_with_fuel(Seq::filter, 1);
        }
        if !contains_handle(&order, scene.nodes[i].handle) {
            nodes.push(scene.nodes[i]);
        }
        i += 1;
    }
    assert(scene.nodes@.take(i as int) =~= scene.nodes@);
    scene.nodes = nodes;
    let mut gone: Vec<Handle> = Vec::new();
    let mut k: usize = order.len();
    while k > 0
        invariant
            k <= order.len(),
            gone.len() == order.len() - k,
            forall|j: int| 0 <= j < gone.len() ==> gone@[j] == order@[order.len() - 1 - j],
        decreases k,
    {
        k -= 1;
        gone.push(order[k]);
    }
    assert(gone@ =~= order@.reverse());
    gone
}

proof fn lemma_branch_closed(
    links: Seq<(Handle, Option<Handle>)>,
    height: spec_fn(Handle) -> nat,
    h: Handle,
    i: int,
    p: Handle,
)
    requires
        grows_upward(links, height),
        0 <= i < links.len(),
        links[i].1 == Some(p),
        branch(links, height, h).contains(p),
    ensures
        branch(links, height, h).contains(links[i].0),
    decreases height(h), links.len() + 1,
{
    let below = branches(links, height, links.len(), h);
    let whole = branch(links, height, h);
    assert(whole =~= seq![h] + below);
    if p == h {
        lemma_child_below(links, height, links.len(), h, i);
        let k = choose|k: int| 0 <= k < below.len() && below[k] == links[i].0;
        assert(whole[k + 1] == links[i].0);
    } else {
        let k = choose|k: int| 0 <= k < whole.len() && whole[k] == p;
        assert(below[k - 1] == p);
        lemma_branches_closed(links, height, links.len(), h, i, p);
        let m = choose|m: int| 0 <= m < below.len() && below[m] == links[i].0;
        assert(whole[m + 1] == links[i].0);
    }
}

proof fn lemma_child_below(
    links: Seq<(Handle, Option<Handle>)>,
    height: spec_fn(Handle) -> nat,
    n: nat,
    h: Handle,
    i: int,
)
    requires
        grows_upward(links, height),
        0 <= i < n <= links.len(),
        links[i].1 == Some(h),
    ensures
        branches(links, height, n, h).contains(links[i].0),
    decreases n,
{
    let rest = branches(links, height, (n - 1) as nat, h);
    let (child, parent) = links[n - 1];
    let all = branches(links, height, n, h);
    if i == n - 1 {
        let below = branches(links, height, links.len(), child);
        assert(height(child) < height(h));
        assert(branch(links, height, child) == seq![child] + below);
        assert(all == branch(links, height, child) + rest);
        assert(all[0] == child);
    } else {
        lemma_child_below(links, height, (n - 1) as nat, h, i);
        let k = choose|k: int| 0 <= k < rest.len() && rest[k] == links[i].0;
        if parent == Some(h) && height(child) < height(h) {
            assert(all[branch(links, height, child).len() + k] == links[i].0);
        } else {
            assert(all[k] == links[i].0);
        }
    }
}

proof fn lemma_branches_closed(
    links: Seq<(Handle, Option<Handle>)>,
    height: spec_fn(Handle) -> nat,
    n: nat,
    h: Handle,
    i: int,
    p: Handle,
)
    requires
        grows_upward(links, height),
        0 <= i < links.len(),
        n <= links.len(),
        links[i].1 == Some(p),
        branches(links, height, n, h).contains(p),
    ensures
        branches(links, height, n, h).contains(links[i].0),
    decreases height(h), n,
{
    if n > 0 {
        let rest = branches(links, height, (n - 1) as nat, h);
        let (child, parent) = links[n - 1];
        let all = branches(links, height, n, h);
        if parent == Some(h) && height(child) < height(h) {
            let first = branch(links, height, child);
            let k = choose|k: int| 0 <= k < all.len() && all[k] == p;
            if k < first.len() {
                assert(first[k] == p);
                lemma_branch_closed(links, height, child, i, p);
                let m = choose|m: int| 0 <= m < first.len() && first[m] == links[i].0;
                assert(all[m] == links[i].0);
            } else {
                assert(rest[k - first.len()] == p);
                lemma_branches_closed(links, height, (n - 1) as nat, h, i, p);
                let m = choose|m: int| 0 <= m < rest.len() && rest[m] == links[i].0;
                assert(all[first.len() + m] == links[i].0);
            }
        } else {
            lemma_branches_closed(links, height, (n - 1) as nat, h, i, p);
        }
    }
}

proof fn lemma_branch_origin(
    links: Seq<(Handle, Option<Handle>)>,
    height: spec_fn(Handle) -> nat,
    h: Handle,
    k: int,
)
    requires
        0 <= k < branch(links, height, h).len(),
    ensures
        k == 0 && branch(links, height, h)[k] == h || has_parent_in(
            links,
            branch(links, height, h)[k],
            branch(links, height, h),
        ),
    decreases height(h), links.len() + 1,
{
    let below = branches(links, height, links.len(), h);
    let whole = branch(links, height, h);
    assert(whole =~= seq![h] + below);
    if k > 0 {
        lemma_branches_origin(links, height, links.len(), h, k - 1);
        let i = choose|i: int|
            0 <= i < links.len() && (#[trigger] links[i]).0 == below[k - 1] && match links[i].1 {
                Some(p) => p == h || below.contains(p),
                None => false,
            };
        let p = links[i].1->Some_0;
        if p == h {
            assert(whole[0] == p);
        } else {
            let m = choose|m: int| 0 <= m < below.len() && below[m] == p;
            assert(whole[m + 1] == p);
        }
        assert(links[i].0 == whole[k]);
    }
}

proof fn lemma_branches_origin(
    links: Seq<(Handle, Option<Handle>)>,
    height: spec_fn(Handle) -> nat,
    n: nat,
    h: Handle,
    k: int,
)
    requires
        n <= links.len(),
        0 <= k < branches(links, height, n, h).len(),
    ensures
        exists|i: int|
            0 <= i < links.len() && (#[trigger] links[i]).0 == branches(links, height, n, h)[k]
                && match links[i].1 {
                Some(p) => p == h || branches(links, height, n, h).contains(p),
                None => false,
            },
    decreases height(h), n,
{
    let rest = branches(links, height, (n - 1) as nat, h);
    let (child, parent) = links[n - 1];
    let all = branches(links, height, n, h);
    if parent == Some(h) && height(child) < height(h) {
        let first = branch(links, height, child);
        if k < first.len() {
            lemma_branch_origin(links, height, child, k);
            if k == 0 && first[k] == child {
                assert(links[n - 1].0 == all[k]);
            } else {
                let i = choose|i: int|
                    0 <= i < links.len() && (#[trigger] links[i]).0 == first[k] && match links[i].1 {
                        Some(p) => first.contains(p),
                        None => false,
                    };
                let p = links[i].1->Some_0;
                let m = choose|m: int| 0 <= m < first.len() && first[m] == p;
                assert(all[m] == p);
                assert(links[i].0 == all[k]);
            }
        } else {
            lemma_branches_origin(links, height, (n - 1) as nat, h, k - first.len());
            let i = choose|i: int|
                0 <= i < links.len() && (#[trigger] links[i]).0 == rest[k - first.len()]
                    && match links[i].1 {
                    Some(p) => p == h || rest.contains(p),
                    None => false,
                };
            let p = links[i].1->Some_0;
            if p != h {
                let m = choose|m: int| 0 <= m < rest.len() && rest[m] == p;
                assert(all[first.len() + m] == p);
            }
            assert(links[i].0 == all[k]);
        }
    } else {
        lemma_branches_origin(links, height, (n - 1) as nat, h, k);
    }
}

/// Some link gives `h` a parent that is in the list.
pub open spec fn has_parent_in(
    links: Seq<(Handle, Option<Handle>)>,
    h: Handle,
    list: Seq<Handle>,
) -> bool {
    exists|i: int|
        0 <= i < links.len() && (#[trigger] links[i]).0 == h && match links[i].1 {
            Some(p) => list.contains(p),
            None => false,
        }
}

/// A subtree starts with its root, holds every child of what it holds, and holds nothing else.
pub proof fn law_subtree_is_closed(links: Seq<(Handle, Option<Handle>)>, root: Handle)
    requires
        is_forest(links),
    ensures
        subtree(links, root).len() > 0,
        subtree(links, root)[0] == root,
        forall|i: int, p: Handle|
            #![trigger links[i], subtree(links, root).contains(p)]
            0 <= i < links.len() && links[i].1 == Some(p) && subtree(links, root).contains(p)
                ==> subtree(links, root).contains(links[i].0),
        forall|k: int|
            0 < k < subtree(links, root).len() ==> has_parent_in(
                links,
                #[trigger] subtree(links, root)[k],
                subtree(links, root),
            ),
{
    let height = choose|height: spec_fn(Handle) -> nat| #[trigger] grows_upward(links, height);
    let whole = subtree(links, root);
    assert(whole =~= seq![root] + branches(links, height, links.len(), root));
    assert forall|i: int, p: Handle|
        #![trigger links[i], whole.contains(p)]
        0 <= i < links.len() && links[i].1 == Some(p) && whole.contains(p) implies whole.contains(
        links[i].0,
    ) by {
        lemma_branch_closed(links, height, root, i, p);
    }
    assert forall|k: int| 0 < k < whole.len() implies has_parent_in(
        links,
        #[trigger] whole[k],
        whole,
    ) by {
        lemma_branch_origin(links, height, root, k);
    }
}

/// What a node shows is the mesh that it names, where both are in the scene; it is drawn as long
/// as the node is not hidden.
pub proof fn law_nodes_show_their_own_mesh(scene: Scene, h: Handle)
    ensures
        match scene.shown(h) {
            Some(info) => {
                &&& scene.node(h) is Some && scene.node(h)->0.handle == h
                &&& scene.node(h)->0.mesh == Some(info.handle)
                &&& scene.meshes@.contains(info)
                &&& scene.drawn(h) == (if scene.node(h)->0.visible {
                    Some(info)
                } else {
                    None
                })
            },
            None => scene.drawn(h) is None,
        },
        forall|i: int, k: int|
            #![trigger scene.nodes@[i], scene.meshes@[k]]
            0 <= i < scene.nodes@.len() && scene.nodes@[i].handle == h && 0 <= k
                < scene.meshes@.len() && scene.node(h)->0.mesh == Some(scene.meshes@[k].handle)
                ==> scene.shown(h) is Some,
{
    lemma_node_at(scene.nodes@, h);
    match scene.node(h) {
        Some(n) => match n.mesh {
            Some(m) => {
                lemma_mesh_at(scene.meshes@, m);
            },
            None => {},
        },
        None => {},
    }
}

/// Showing and hiding reaches the nodes of a group and no others, and changes nothing else of
/// them.
pub proof fn law_switching_reaches_the_group(
    nodes: Seq<Node>,
    group: Set<Handle>,
    visible: bool,
    i: int,
)
    requires
        0 <= i < nodes.len(),
    ensures
        ({
            let a = nodes[i];
            let b = switched(nodes, group, visible)[i];
            &&& switched(nodes, group, visible).len() == nodes.len()
            &&& b.handle == a.handle && b.parent == a.parent && b.mesh == a.mesh
            &&& b.material == a.material
            &&& group.contains(a.handle) ==> b.visible == visible
            &&& !group.contains(a.handle) ==> b.visible == a.visible
        }),
{
}

} // verus!
