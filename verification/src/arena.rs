//! Append-only store of labeled tree nodes, addressed by stable integer
//! handles. The tree's edges live inside the store: each node records its
//! parent handle and the handles of its children in insertion order.

use vstd::prelude::*;

verus! {

/// Mathematical model of one node: its label bytes, the handle of its parent
/// (`None` exactly for the root), and its children in insertion order.
#[verifier::ext_equal]
pub struct NodeModel {
    pub label: Seq<u8>,
    pub parent: Option<int>,
    pub children: Seq<int>,
}

/// One stored node.
#[derive(Debug)]
struct Node {
    label: Vec<u8>,
    parent: Option<usize>,
    children: Vec<usize>,
}

/// Lifts a vector of handles to its mathematical form.
pub open spec fn handles_model(s: Seq<usize>) -> Seq<int> {
    Seq::new(s.len(), |i: int| s[i] as int)
}

impl View for Node {
    type V = NodeModel;

    closed spec fn view(&self) -> NodeModel {
        NodeModel {
            label: self.label@,
            parent: match self.parent {
                Some(p) => Some(p as int),
                None => None,
            },
            children: handles_model(self.children@),
        }
    }
}

/// The arena: a dense vector of nodes. Handles are indices into it; nodes are
/// only ever appended, so a handle stays valid for the arena's whole lifetime.
#[derive(Debug)]
pub struct Arena {
    nodes: Vec<Node>,
}

impl View for Arena {
    type V = Seq<NodeModel>;

    closed spec fn view(&self) -> Seq<NodeModel> {
        Seq::new(self.nodes@.len(), |i: int| self.nodes@[i]@)
    }
}

/// Structural soundness of an arena: node 0 (if present) is the root and has
/// no parent; every other node names a parent created before it; the edge
/// lists agree with the parent fields; and each node's children are listed
/// once, in creation order.
pub open spec fn arena_wf(a: Seq<NodeModel>) -> bool {
    &&& (a.len() > 0 ==> a[0].parent is None)
    &&& (forall|i: int|
        1 <= i < a.len() ==> (#[trigger] a[i].parent) is Some && 0 <= a[i].parent->Some_0 < i)
    &&& (forall|i: int, j: int|
        0 <= i < a.len() && 0 <= j < a[i].children.len() ==> i < #[trigger] a[i].children[j]
            < a.len() && a[a[i].children[j]].parent == Some(i))
    &&& (forall|i: int, j: int, k: int|
        0 <= i < a.len() && 0 <= j < k < a[i].children.len() ==> #[trigger] a[i].children[j]
            < #[trigger] a[i].children[k])
    &&& (forall|c: int|
        1 <= c < a.len() ==> a[(#[trigger] a[c].parent)->Some_0].children.contains(c))
}

impl Arena {
    /// A fresh arena holding no nodes.
    pub fn new() -> (a: Arena)
        ensures
            a@ == Seq::<NodeModel>::empty(),
    {
        let a = Arena { nodes: Vec::new() };
        proof {
            assert(a@ =~= Seq::<NodeModel>::empty());
        }
        a
    }

    /// Number of nodes created so far; valid handles are exactly `0..len`.
    pub fn len(&self) -> (n: usize)
        ensures
            n == self@.len(),
    {
        self.nodes.len()
    }

    /// The label of node `handle`.
    pub fn label(&self, handle: usize) -> (r: &Vec<u8>)
        requires
            handle < self@.len(),
        ensures
            r@ == self@[handle as int].label,
    {
        &self.nodes[handle].label
    }

    /// The parent handle of node `handle`, `None` for the root.
    pub fn parent_of(&self, handle: usize) -> (r: Option<usize>)
        requires
            handle < self@.len(),
        ensures
            match r {
                Some(p) => self@[handle as int].parent == Some(p as int),
                None => self@[handle as int].parent is None,
            },
    {
        self.nodes[handle].parent
    }

    /// The ordered children of node `handle`.
    pub fn child_handles(&self, handle: usize) -> (r: &Vec<usize>)
        requires
            handle < self@.len(),
        ensures
            handles_model(r@) == self@[handle as int].children,
    {
        &self.nodes[handle].children
    }

    /// Appends a node with the given label and parent; the new node starts
    /// with no children and its handle is the arena's previous length.
    pub fn new_node(&mut self, label: Vec<u8>, parent: Option<usize>) -> (handle: usize)
        ensures
            handle == old(self)@.len(),
            final(self)@ == old(self)@.push(
                NodeModel {
                    label: label@,
                    parent: match parent {
                        Some(p) => Some(p as int),
                        None => None,
                    },
                    children: Seq::<int>::empty(),
                },
            ),
    {
        let handle = self.nodes.len();
        let node = Node { label, parent, children: Vec::new() };
        proof {
            assert(node@.children =~= Seq::<int>::empty());
        }
        self.nodes.push(node);
        proof {
            assert(self@ =~~= old(self)@.push(node@));
        }
        handle
    }

    /// Records `child` as the last child of `parent`.
    pub fn append_child(&mut self, parent: usize, child: usize)
        requires
            parent < old(self)@.len(),
        ensures
            final(self)@ == old(self)@.update(
                parent as int,
                NodeModel {
                    children: old(self)@[parent as int].children.push(child as int),
                    ..old(self)@[parent as int]
                },
            ),
    {
        let node = &mut self.nodes[parent];
        node.children.push(child);
        proof {
            assert(self.nodes@[parent as int]@.children =~= old(self)@[parent as int].children.push(
                child as int,
            ));
            assert(self@ =~~= old(self)@.update(
                parent as int,
                NodeModel {
                    children: old(self)@[parent as int].children.push(child as int),
                    ..old(self)@[parent as int]
                },
            ));
        }
    }
}

} // verus!
