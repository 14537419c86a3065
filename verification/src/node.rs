//! The tree's only entity, and the failures of the operations on it.

use crate::bytes::copy_bytes;
use vstd::prelude::*;

verus! {

/// What a node is.
#[derive(Clone, Copy, Debug, PartialEq, Eq, Structural)]
pub enum NodeKind {
    /// Carries content and has no children.
    File,
    /// Carries no content; its digest follows from its children.
    Directory,
}

/// Why an operation was refused or failed.
#[derive(Clone, Copy, Debug, PartialEq, Eq, Structural)]
pub enum TreeError {
    /// The request is malformed: a directory with a payload, or a field
    /// that is not valid hexadecimal or base64.
    InvalidRequest,
    /// A digest named by the request is not in the store.
    NotFound,
    /// The nodes at hand violate an invariant of the tree.
    InconsistentTree,
    /// The store could not be reached or the transaction failed.
    StoreUnavailable,
}

/// A file or directory.
///
/// An empty `parent_hash` marks the root. `data_hash` is empty for a
/// directory. `data` holds a payload only while a new file is on its way to
/// the store.
#[derive(Clone, Debug, PartialEq, Eq)]
pub struct Node {
    pub hash: Vec<u8>,
    pub kind: NodeKind,
    pub metadata: Vec<u8>,
    pub metadata_hash: Vec<u8>,
    pub parent_hash: Vec<u8>,
    pub data_hash: Vec<u8>,
    pub data: Vec<u8>,
}

/// The mathematical value of a [`Node`].
pub struct NodeView {
    pub hash: Seq<u8>,
    pub kind: NodeKind,
    pub metadata: Seq<u8>,
    pub metadata_hash: Seq<u8>,
    pub parent_hash: Seq<u8>,
    pub data_hash: Seq<u8>,
    pub data: Seq<u8>,
}

impl View for Node {
    type V = NodeView;

    open spec fn view(&self) -> NodeView {
        NodeView {
            hash: self.hash@,
            kind: self.kind,
            metadata: self.metadata@,
            metadata_hash: self.metadata_hash@,
            parent_hash: self.parent_hash@,
            data_hash: self.data_hash@,
            data: self.data@,
        }
    }
}

/// The values of a sequence of nodes, position by position.
pub open spec fn node_views(nodes: Seq<Node>) -> Seq<NodeView> {
    Seq::new(nodes.len(), |i: int| nodes[i]@)
}

/// Two nodes differ at most in their digest and in their parent.
pub open spec fn same_content(a: NodeView, b: NodeView) -> bool {
    &&& a.kind == b.kind
    &&& a.metadata == b.metadata
    &&& a.metadata_hash == b.metadata_hash
    &&& a.data_hash == b.data_hash
    &&& a.data == b.data
}

/// `out` has the nodes of `ctx`, each at its position and with its content.
pub open spec fn same_contents(ctx: Seq<NodeView>, out: Seq<NodeView>) -> bool {
    &&& out.len() == ctx.len()
    &&& forall|i: int| 0 <= i < ctx.len() ==> same_content(#[trigger] out[i], ctx[i])
}

impl NodeView {
    /// The same node under another digest.
    pub open spec fn with_hash(self, hash: Seq<u8>) -> NodeView {
        NodeView { hash, ..self }
    }

    /// The same node under another parent.
    pub open spec fn with_parent(self, parent_hash: Seq<u8>) -> NodeView {
        NodeView { parent_hash, ..self }
    }

    /// Whether this node has no parent.
    pub open spec fn is_root(self) -> bool {
        self.parent_hash.len() == 0
    }
}

impl Node {
    /// A node equal to this one that shares no storage with it.
    pub fn duplicate(&self) -> (out: Node)
        ensures
            out@ == self@,
    {
        Node {
            hash: copy_bytes(self.hash.as_slice()),
            kind: self.kind,
            metadata: copy_bytes(self.metadata.as_slice()),
            metadata_hash: copy_bytes(self.metadata_hash.as_slice()),
            parent_hash: copy_bytes(self.parent_hash.as_slice()),
            data_hash: copy_bytes(self.data_hash.as_slice()),
            data: copy_bytes(self.data.as_slice()),
        }
    }

    /// Whether this node is a directory.
    pub fn is_dir(&self) -> (dir: bool)
        ensures
            dir == (self@.kind == NodeKind::Directory),
    {
        match self.kind {
            NodeKind::Directory => true,
            NodeKind::File => false,
        }
    }

    /// Whether this node has no parent.
    pub fn is_root(&self) -> (root: bool)
        ensures
            root == self@.is_root(),
    {
        self.parent_hash.len() == 0
    }
}

/// A copy of every node, in the same order.
pub fn duplicate_all(nodes: &Vec<Node>) -> (out: Vec<Node>)
    ensures
        node_views(out@) == node_views(nodes@),
{
    let mut out: Vec<Node> = Vec::new();
    let mut i: usize = 0;
    while i < nodes.len()
        invariant
            i <= nodes.len(),
            out@.len() == i,
            forall|k: int| 0 <= k < i ==> out@[k]@ == nodes@[k]@,
        decreases nodes.len() - i,
    {
        out.push(nodes[i].duplicate());
        i += 1;
    }
    assert(node_views(out@) =~= node_views(nodes@));
    out
}

} // verus!
