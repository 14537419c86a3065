//! The three workflows that change a tree: create its root, insert a node,
//! delete a node. Each takes the context that the store handed out and
//! gives back what has to be written.

use crate::bytes::copy_bytes;
use crate::fetch::{select_context, spec_select_context};
use crate::digest::{dir_hash, leaf_hash, metadata_hash, sha384, sha384_digest, spec_dir_hash,
    spec_leaf_hash, spec_metadata_hash, DIGEST_LEN};
use crate::ancestry::{find, find_hash};
use crate::mutator::{kept_or_renewed, spec_update_tree, update_tree};
use crate::node::{duplicate_all, node_views, Node, NodeKind, NodeView, TreeError};
use vstd::prelude::*;

verus! {

/// What a change of the tree leaves behind: the context before and after,
/// and the digest of the root after.
#[derive(Clone, Debug, PartialEq, Eq)]
pub struct Mutation {
    pub old_tree: Vec<Node>,
    pub new_tree: Vec<Node>,
    pub new_top_hash: Vec<u8>,
}

/// The mathematical value of a [`Mutation`].
pub struct MutationView {
    pub old_tree: Seq<NodeView>,
    pub new_tree: Seq<NodeView>,
    pub new_top_hash: Seq<u8>,
}

impl View for Mutation {
    type V = MutationView;

    open spec fn view(&self) -> MutationView {
        MutationView {
            old_tree: node_views(self.old_tree@),
            new_tree: node_views(self.new_tree@),
            new_top_hash: self.new_top_hash@,
        }
    }
}

/// The node at `r` is the only one of `ctx` without a parent.
pub open spec fn is_only_root(ctx: Seq<NodeView>, r: int) -> bool {
    &&& 0 <= r < ctx.len()
    &&& ctx[r].is_root()
    &&& forall|j: int| 0 <= j < ctx.len() && j != r ==> !(#[trigger] ctx[j]).is_root()
}

/// The digest of the root of `ctx`. A context with no root, with several, or
/// with a root that is no directory is inconsistent.
pub open spec fn spec_top_hash(ctx: Seq<NodeView>) -> Result<Seq<u8>, TreeError> {
    if exists|r: int| is_only_root(ctx, r) && ctx[r].kind == NodeKind::Directory {
        let r = choose|r: int| is_only_root(ctx, r) && ctx[r].kind == NodeKind::Directory;
        Ok(ctx[r].hash)
    } else {
        Err(TreeError::InconsistentTree)
    }
}

/// An only root is the one whose digest `spec_top_hash` gives.
pub proof fn lemma_top_hash_is(ctx: Seq<NodeView>, r: int)
    requires
        is_only_root(ctx, r),
    ensures
        spec_top_hash(ctx) == if ctx[r].kind == NodeKind::Directory {
            Ok::<Seq<u8>, TreeError>(ctx[r].hash)
        } else {
            Err::<Seq<u8>, TreeError>(TreeError::InconsistentTree)
        },
{
    if exists|q: int| is_only_root(ctx, q) && ctx[q].kind == NodeKind::Directory {
        let q = choose|q: int| is_only_root(ctx, q) && ctx[q].kind == NodeKind::Directory;
        if q != r {
            assert(!ctx[q].is_root());
        }
    }
}

/// The digest of the root of `ctx`: of its only node without a parent, which
/// has to be a directory.
pub fn top_hash(ctx: &Vec<Node>) -> (top: Result<Vec<u8>, TreeError>)
    ensures
        match top {
            Ok(h) => spec_top_hash(node_views(ctx@)) == Ok::<Seq<u8>, TreeError>(h@),
            Err(e) => spec_top_hash(node_views(ctx@)) == Err::<Seq<u8>, TreeError>(e),
        },
{
    let ghost all = node_views(ctx@);
    let mut root: Option<usize> = None;
    let mut i: usize = 0;
    while i < ctx.len()
        invariant
            i <= ctx.len(),
            all == node_views(ctx@),
            match root {
                Some(r) => r < i && all[r as int].is_root() && forall|j: int|
                    0 <= j < i && j != r ==> !(#[trigger] all[j]).is_root(),
                None => forall|j: int| 0 <= j < i ==> !(#[trigger] all[j]).is_root(),
            },
        decreases ctx.len() - i,
    {
        assert(all[i as int] == ctx@[i as int]@);
        if ctx[i].is_root() {
            match root {
                Some(r) => {
                    proof {
                        if exists|q: int| is_only_root(all, q) {
                            let q = choose|q: int| is_only_root(all, q);
                            assert(q == i || !all[i as int].is_root());
                            assert(q == r || !all[r as int].is_root());
                        }
                    }
                    return Err(TreeError::InconsistentTree);
                },
                None => {
                    root = Some(i);
                },
            }
        }
        i += 1;
    }
    match root {
        None => {
            proof {
                if exists|q: int| is_only_root(all, q) {
                    let q = choose|q: int| is_only_root(all, q);
                    assert(!all[q].is_root());
                }
            }
            Err(TreeError::InconsistentTree)
        },
        Some(r) => {
            proof {
                assert(is_only_root(all, r as int));
                lemma_top_hash_is(all, r as int);
                assert(all[r as int] == ctx@[r as int]@);
            }
            if ctx[r].is_dir() {
                Ok(copy_bytes(ctx[r].hash.as_slice()))
            } else {
                Err(TreeError::InconsistentTree)
            }
        },
    }
}

/// The bytes of a payload, where there is one.
pub open spec fn payload_view(data: Option<Vec<u8>>) -> Option<Seq<u8>> {
    match data {
        Some(d) => Some(d@),
        None => None,
    }
}

/// The root of a new tree: a directory without parent and without children.
pub open spec fn spec_root(metadata: Seq<u8>) -> NodeView {
    let mh = spec_metadata_hash(metadata);
    NodeView {
        hash: spec_dir_hash(mh, Seq::empty()),
        kind: NodeKind::Directory,
        metadata,
        metadata_hash: mh,
        parent_hash: Seq::empty(),
        data_hash: Seq::empty(),
        data: Seq::empty(),
    }
}

/// The node that a request to insert describes, before it is linked in: a
/// directory without children, or a file whose payload is `data`, the empty
/// payload where there is none.
pub open spec fn spec_candidate(
    parent_hash: Seq<u8>,
    metadata: Seq<u8>,
    kind: NodeKind,
    data: Option<Seq<u8>>,
) -> NodeView {
    let mh = spec_metadata_hash(metadata);
    match kind {
        NodeKind::Directory => NodeView {
            hash: spec_dir_hash(mh, Seq::empty()),
            kind,
            metadata,
            metadata_hash: mh,
            parent_hash,
            data_hash: Seq::empty(),
            data: Seq::empty(),
        },
        NodeKind::File => {
            let payload = match data {
                Some(d) => d,
                None => Seq::empty(),
            };
            let dh = sha384_digest(payload);
            NodeView {
                hash: spec_leaf_hash(mh, dh),
                kind,
                metadata,
                metadata_hash: mh,
                parent_hash,
                data_hash: dh,
                data: payload,
            }
        },
    }
}

/// The digests that `node` has by its own content are of full length: its
/// digest, its metadata digest and, for a file, its data digest.
pub open spec fn has_full_digests(node: NodeView) -> bool {
    &&& node.hash.len() == DIGEST_LEN
    &&& node.metadata_hash.len() == DIGEST_LEN
    &&& node.kind == NodeKind::File ==> node.data_hash.len() == DIGEST_LEN
}

/// Whether a request to insert is refused before anything is looked up: a
/// directory cannot carry a payload, not even an empty one.
pub open spec fn is_invalid_insert(kind: NodeKind, data: Option<Seq<u8>>) -> bool {
    kind == NodeKind::Directory && data is Some
}

/// The outcome of following the digests up from `start` in `tree` and
/// reading the root's digest off the result.
pub open spec fn spec_mutate(old_tree: Seq<NodeView>, tree: Seq<NodeView>, start: Seq<u8>) -> Result<
    MutationView,
    TreeError,
> {
    match spec_update_tree(tree, start) {
        Err(e) => Err(e),
        Ok(new_tree) => match spec_top_hash(new_tree) {
            Err(e) => Err(e),
            Ok(top) => Ok(MutationView { old_tree, new_tree, new_top_hash: top }),
        },
    }
}

/// The outcome of inserting a node under `parent_hash` into `ctx`.
pub open spec fn spec_insert_node(
    ctx: Seq<NodeView>,
    parent_hash: Seq<u8>,
    metadata: Seq<u8>,
    kind: NodeKind,
    data: Option<Seq<u8>>,
) -> Result<MutationView, TreeError> {
    if is_invalid_insert(kind, data) {
        Err(TreeError::InvalidRequest)
    } else if find_hash(ctx, parent_hash) is None {
        Err(TreeError::NotFound)
    } else {
        spec_mutate(
            ctx,
            ctx.push(spec_candidate(parent_hash, metadata, kind, data)),
            parent_hash,
        )
    }
}

/// The outcome of deleting the node with the digest `hash` from `ctx`.
pub open spec fn spec_delete_node(ctx: Seq<NodeView>, hash: Seq<u8>) -> Result<
    MutationView,
    TreeError,
> {
    match find_hash(ctx, hash) {
        None => Err(TreeError::NotFound),
        Some(i) => spec_mutate(ctx, ctx.remove(i), ctx[i].parent_hash),
    }
}

/// The root of a new tree with the given metadata. Its digest is the top
/// hash of the tree.
pub fn init_root(metadata: Vec<u8>) -> (root: Node)
    ensures
        root@ == spec_root(metadata@),
        root@.hash == sha384_digest(sha384_digest(metadata@)),
        root@.hash.len() == DIGEST_LEN,
        root@.metadata_hash.len() == DIGEST_LEN,
        spec_top_hash(seq![root@]) == Ok::<Seq<u8>, TreeError>(root@.hash),
{
    let mh = metadata_hash(metadata.as_slice());
    let no_children: Vec<Vec<u8>> = Vec::new();
    let hash = dir_hash(mh.as_slice(), &no_children);
    let root = Node {
        hash,
        kind: NodeKind::Directory,
        metadata,
        metadata_hash: mh,
        parent_hash: Vec::new(),
        data_hash: Vec::new(),
        data: Vec::new(),
    };
    proof {
        assert(crate::digest::views(no_children@) =~= Seq::<Seq<u8>>::empty());
        assert(is_only_root(seq![root@], 0));
        lemma_top_hash_is(seq![root@], 0);
    }
    root
}

/// The node that a request to insert describes, not yet linked into a tree.
///
/// Refuses a directory with a payload as `InvalidRequest`.
pub fn new_node(parent_hash: &[u8], metadata: Vec<u8>, kind: NodeKind, data: Option<Vec<u8>>) -> (made:
    Result<Node, TreeError>)
    ensures
        match made {
            Ok(node) => !is_invalid_insert(kind, payload_view(data)) && node@ == spec_candidate(
                parent_hash@,
                metadata@,
                kind,
                payload_view(data),
            ) && has_full_digests(node@),
            Err(e) => is_invalid_insert(kind, payload_view(data)) && e
                == TreeError::InvalidRequest,
        },
{
    let mh = metadata_hash(metadata.as_slice());
    match kind {
        NodeKind::Directory => {
            if data.is_some() {
                return Err(TreeError::InvalidRequest);
            }
            let no_children: Vec<Vec<u8>> = Vec::new();
            let hash = dir_hash(mh.as_slice(), &no_children);
            assert(crate::digest::views(no_children@) =~= Seq::<Seq<u8>>::empty());
            Ok(
                Node {
                    hash,
                    kind,
                    metadata,
                    metadata_hash: mh,
                    parent_hash: copy_bytes(parent_hash),
                    data_hash: Vec::new(),
                    data: Vec::new(),
                },
            )
        },
        NodeKind::File => {
            let payload: Vec<u8> = match data {
                Some(d) => d,
                None => Vec::new(),
            };
            let dh = sha384(payload.as_slice());
            let hash = leaf_hash(mh.as_slice(), dh.as_slice());
            Ok(
                Node {
                    hash,
                    kind,
                    metadata,
                    metadata_hash: mh,
                    parent_hash: copy_bytes(parent_hash),
                    data_hash: dh,
                    data: payload,
                },
            )
        },
    }
}

/// Recomputes `tree` from `start` upwards and reads off the new top hash.
pub fn mutate(old_tree: Vec<Node>, tree: Vec<Node>, start: &[u8]) -> (done: Result<
    Mutation,
    TreeError,
>)
    ensures
        match done {
            Ok(m) => spec_mutate(node_views(old_tree@), node_views(tree@), start@) == Ok::<
                MutationView,
                TreeError,
            >(m@),
            Err(e) => spec_mutate(node_views(old_tree@), node_views(tree@), start@) == Err::<
                MutationView,
                TreeError,
            >(e),
        },
        done matches Ok(m) ==> kept_or_renewed(node_views(tree@), m@.new_tree),
{
    let new_tree = match update_tree(start, tree) {
        Err(e) => {
            return Err(e);
        },
        Ok(t) => t,
    };
    let top = match top_hash(&new_tree) {
        Err(e) => {
            return Err(e);
        },
        Ok(h) => h,
    };
    Ok(Mutation { old_tree, new_tree, new_top_hash: top })
}

/// Inserts a node under the node with the digest `parent_hash`.
///
/// `context` is what the store holds around `parent_hash`. The new node is
/// appended to it, and the digests from `parent_hash` up to the root are
/// recomputed.
///
/// Fails with `InvalidRequest` for a directory with a payload, with
/// `NotFound` where `context` has no node with the digest `parent_hash`, and
/// with `InconsistentTree` where the chain of parents does not end or the
/// result has not exactly one root that is a directory.
pub fn insert_node(
    context: Vec<Node>,
    parent_hash: &[u8],
    metadata: Vec<u8>,
    kind: NodeKind,
    data: Option<Vec<u8>>,
) -> (done: Result<Mutation, TreeError>)
    ensures
        match done {
            Ok(m) => spec_insert_node(
                node_views(context@),
                parent_hash@,
                metadata@,
                kind,
                payload_view(data),
            ) == Ok::<MutationView, TreeError>(m@),
            Err(e) => spec_insert_node(
                node_views(context@),
                parent_hash@,
                metadata@,
                kind,
                payload_view(data),
            ) == Err::<MutationView, TreeError>(e),
        },
        done matches Ok(m) ==> has_full_digests(
            spec_candidate(parent_hash@, metadata@, kind, payload_view(data)),
        ) && kept_or_renewed(
            node_views(context@).push(
                spec_candidate(parent_hash@, metadata@, kind, payload_view(data)),
            ),
            m@.new_tree,
        ),
{
    let candidate = match new_node(parent_hash, metadata, kind, data) {
        Err(e) => {
            return Err(e);
        },
        Ok(node) => node,
    };
    if find(&context, parent_hash).is_none() {
        return Err(TreeError::NotFound);
    }
    let mut tree = duplicate_all(&context);
    tree.push(candidate);
    assert(node_views(tree@) =~= node_views(context@).push(candidate@));
    mutate(context, tree, parent_hash)
}

/// Deletes the node with the digest `hash`.
///
/// `context` is what the store holds around `hash`. The node is taken out of
/// it, and the digests from its parent up to the root are recomputed.
///
/// Fails with `NotFound` where `context` has no node with the digest `hash`,
/// and with `InconsistentTree` where the node's parent is not in `context`
/// (the root cannot be deleted), the chain of parents does not end, or the
/// result has not exactly one root that is a directory.
pub fn delete_node(context: Vec<Node>, hash: &[u8]) -> (done: Result<Mutation, TreeError>)
    ensures
        match done {
            Ok(m) => spec_delete_node(node_views(context@), hash@) == Ok::<
                MutationView,
                TreeError,
            >(m@),
            Err(e) => spec_delete_node(node_views(context@), hash@) == Err::<
                MutationView,
                TreeError,
            >(e),
        },
        done matches Ok(m) ==> kept_or_renewed(
            node_views(context@).remove(find_hash(node_views(context@), hash@)->0),
            m@.new_tree,
        ),
{
    let at = match find(&context, hash) {
        None => {
            return Err(TreeError::NotFound);
        },
        Some(i) => i,
    };
    let mut tree = duplicate_all(&context);
    let removed = tree.remove(at);
    assert(node_views(tree@) =~= node_views(context@).remove(at as int));
    assert(removed@ == node_views(context@)[at as int]);
    mutate(context, tree, removed.parent_hash.as_slice())
}

/// The outcome of inserting a node under `parent_hash`, given rows of the
/// store: the request is looked at first, then the context of the parent is
/// taken from the rows, then the node is inserted into it.
pub open spec fn spec_insert_among(
    rows: Seq<NodeView>,
    parent_hash: Seq<u8>,
    metadata: Seq<u8>,
    kind: NodeKind,
    data: Option<Seq<u8>>,
) -> Result<MutationView, TreeError> {
    if is_invalid_insert(kind, data) {
        Err(TreeError::InvalidRequest)
    } else {
        match spec_select_context(rows, parent_hash) {
            Err(e) => Err(e),
            Ok(context) => spec_insert_node(context, parent_hash, metadata, kind, data),
        }
    }
}

/// The outcome of deleting the node with the digest `hash`, given rows of
/// the store: the context of the node is taken from the rows, then the node
/// is deleted from it.
pub open spec fn spec_delete_among(rows: Seq<NodeView>, hash: Seq<u8>) -> Result<
    MutationView,
    TreeError,
> {
    match spec_select_context(rows, hash) {
        Err(e) => Err(e),
        Ok(context) => spec_delete_node(context, hash),
    }
}

/// Inserts a node under the node with the digest `parent_hash`, given rows
/// that the store handed out for it.
///
/// Of the rows only the context of the parent is used: the parent and its
/// ancestors, the nodes that share a parent with one of them, and the
/// children of the parent. Rows beyond it change nothing.
///
/// Fails with `InvalidRequest` for a directory with a payload, whatever the
/// rows hold; with `NotFound` where no row has the digest `parent_hash`; and
/// with `InconsistentTree` where the chain of parents does not end or the
/// result has not exactly one root that is a directory.
pub fn insert_among(
    rows: &Vec<Node>,
    parent_hash: &[u8],
    metadata: Vec<u8>,
    kind: NodeKind,
    data: Option<Vec<u8>>,
) -> (done: Result<Mutation, TreeError>)
    ensures
        match done {
            Ok(m) => spec_insert_among(
                node_views(rows@),
                parent_hash@,
                metadata@,
                kind,
                payload_view(data),
            ) == Ok::<MutationView, TreeError>(m@),
            Err(e) => spec_insert_among(
                node_views(rows@),
                parent_hash@,
                metadata@,
                kind,
                payload_view(data),
            ) == Err::<MutationView, TreeError>(e),
        },
{
    let refused = match kind {
        NodeKind::Directory => data.is_some(),
        NodeKind::File => false,
    };
    if refused {
        return Err(TreeError::InvalidRequest);
    }
    let context = match select_context(rows, parent_hash) {
        Err(e) => {
            return Err(e);
        },
        Ok(c) => c,
    };
    insert_node(context, parent_hash, metadata, kind, data)
}

/// Deletes the node with the digest `hash`, given rows that the store handed
/// out for it. Of the rows only the context of the node is used.
///
/// Fails with `NotFound` where no row has the digest `hash`, and with
/// `InconsistentTree` where the node's parent is not among the rows (the
/// root cannot be deleted), the chain of parents does not end, or the result
/// has not exactly one root that is a directory.
pub fn delete_among(rows: &Vec<Node>, hash: &[u8]) -> (done: Result<Mutation, TreeError>)
    ensures
        match done {
            Ok(m) => spec_delete_among(node_views(rows@), hash@) == Ok::<
                MutationView,
                TreeError,
            >(m@),
            Err(e) => spec_delete_among(node_views(rows@), hash@) == Err::<
                MutationView,
                TreeError,
            >(e),
        },
{
    let context = match select_context(rows, hash) {
        Err(e) => {
            return Err(e);
        },
        Ok(c) => c,
    };
    delete_node(context, hash)
}

} // verus!
