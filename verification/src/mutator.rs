//! Bottom-up recomputation of digests over a context.
//!
//! The way up is fixed first: the node to start from and its ancestors, as
//! the context names them when it is handed in. Then each node on that way,
//! from the start to the root, gets the digest that follows from its present
//! content, and the nodes that named it as their parent are pointed at the
//! new digest.

use crate::ancestry::{chain_of, find, find_hash, positions, spec_chain};
use crate::bytes::{bytes_eq, copy_bytes};
use crate::digest::{dir_hash, leaf_hash, spec_dir_hash, spec_leaf_hash, views, DIGEST_LEN};
use crate::laws::update_keeps_contents;
use crate::node::{node_views, same_contents, Node, NodeKind, NodeView, TreeError};
use crate::order::{ascending, insert_ascending, lemma_ascending_is};
use vstd::prelude::*;

verus! {

/// The digests of the nodes of `ctx` that name `parent` as their parent.
pub open spec fn child_hashes(ctx: Seq<NodeView>, parent: Seq<u8>) -> Set<Seq<u8>> {
    Set::new(
        |x: Seq<u8>|
            exists|i: int|
                0 <= i < ctx.len() && (#[trigger] ctx[i]).parent_hash == parent && ctx[i].hash
                    == x,
    )
}

/// The digest that the node at `c` has by its content as it stands in `ctx`:
/// a file by its metadata and data digests, a directory by its metadata
/// digest and the digests of its children in strictly ascending order.
pub open spec fn recomputed_hash(ctx: Seq<NodeView>, c: int) -> Seq<u8> {
    match ctx[c].kind {
        NodeKind::File => spec_leaf_hash(ctx[c].metadata_hash, ctx[c].data_hash),
        NodeKind::Directory => spec_dir_hash(
            ctx[c].metadata_hash,
            ascending(child_hashes(ctx, ctx[c].hash)),
        ),
    }
}

/// Whether the node at `i` is a child of the directory at `c`.
pub open spec fn is_child_of(ctx: Seq<NodeView>, c: int, i: int) -> bool {
    ctx[c].kind == NodeKind::Directory && ctx[i].parent_hash == ctx[c].hash
}

/// `ctx` after the node at `c` took the digest `new_hash`: its children
/// name `new_hash` as their parent, and nothing else changed.
pub open spec fn spec_relink(ctx: Seq<NodeView>, c: int, new_hash: Seq<u8>) -> Seq<NodeView> {
    Seq::new(
        ctx.len(),
        |i: int|
            {
                let moved = if is_child_of(ctx, c, i) {
                    ctx[i].with_parent(new_hash)
                } else {
                    ctx[i]
                };
                if i == c {
                    moved.with_hash(new_hash)
                } else {
                    moved
                }
            },
    )
}

/// One step of the walk at `c`: the node is given its recomputed digest.
pub open spec fn spec_step(ctx: Seq<NodeView>, c: int) -> Seq<NodeView> {
    spec_relink(ctx, c, recomputed_hash(ctx, c))
}

/// `ctx` after the nodes at the positions of `route` were stepped, one after
/// the other.
pub open spec fn spec_steps(ctx: Seq<NodeView>, route: Seq<int>) -> Seq<NodeView>
    decreases route.len(),
{
    if route.len() == 0 {
        ctx
    } else {
        spec_steps(spec_step(ctx, route[0]), route.drop_first())
    }
}

/// The context after the digests from `start` up to the root have been
/// recomputed: the node with the digest `start` and its ancestors, as `ctx`
/// names them, are stepped in turn. It is `InconsistentTree` where no node
/// has the digest `start`, and where the chain of ancestors does not end.
pub open spec fn spec_update_tree(ctx: Seq<NodeView>, start: Seq<u8>) -> Result<
    Seq<NodeView>,
    TreeError,
> {
    match find_hash(ctx, start) {
        None => Err(TreeError::InconsistentTree),
        Some(c) => match spec_chain(ctx, c, (ctx.len() - 1) as nat) {
            None => Err(TreeError::InconsistentTree),
            Some(route) => Ok(spec_steps(ctx, route)),
        },
    }
}

/// Every digest and every parent of `after` is the one of `before` at the
/// same position, or a digest of full length.
pub open spec fn kept_or_renewed(before: Seq<NodeView>, after: Seq<NodeView>) -> bool {
    &&& after.len() == before.len()
    &&& forall|i: int|
        0 <= i < before.len() ==> ((#[trigger] after[i]).hash == before[i].hash
            || after[i].hash.len() == DIGEST_LEN) && (after[i].parent_hash
            == before[i].parent_hash || after[i].parent_hash.len() == DIGEST_LEN)
}

/// The digests of the children found among the first `n` nodes.
proof fn lemma_child_hashes_grow(ctx: Seq<NodeView>, parent: Seq<u8>, n: int)
    requires
        0 <= n < ctx.len(),
    ensures
        child_hashes(ctx.take(n + 1), parent) == if ctx[n].parent_hash == parent {
            child_hashes(ctx.take(n), parent).insert(ctx[n].hash)
        } else {
            child_hashes(ctx.take(n), parent)
        },
{
    let small = ctx.take(n);
    let large = ctx.take(n + 1);
    let grown = if ctx[n].parent_hash == parent {
        child_hashes(small, parent).insert(ctx[n].hash)
    } else {
        child_hashes(small, parent)
    };
    assert forall|x: Seq<u8>| child_hashes(large, parent).contains(x) == grown.contains(x) by {
        if child_hashes(large, parent).contains(x) {
            let i: int = choose|i: int|
                0 <= i < large.len() && (#[trigger] large[i]).parent_hash == parent && large[i].hash
                    == x;
            if i < n {
                assert(small[i].parent_hash == parent && small[i].hash == x);
            }
        }
        if child_hashes(small, parent).contains(x) {
            let i: int = choose|i: int|
                0 <= i < small.len() && (#[trigger] small[i]).parent_hash == parent && small[i].hash
                    == x;
            assert(large[i].parent_hash == parent && large[i].hash == x);
        }
        if ctx[n].parent_hash == parent && x == ctx[n].hash {
            assert(large[n].parent_hash == parent && large[n].hash == x);
        }
    }
    assert(child_hashes(large, parent) =~= grown);
}

/// The digests of the nodes of `ctx` that name `parent` as their parent, in
/// strictly ascending order and each once.
pub fn children_of(ctx: &Vec<Node>, parent: &[u8]) -> (kids: Vec<Vec<u8>>)
    ensures
        views(kids@) == ascending(child_hashes(node_views(ctx@), parent@)),
{
    let ghost all = node_views(ctx@);
    let mut kids: Vec<Vec<u8>> = Vec::new();
    let mut i: usize = 0;
    assert(views(kids@).to_set() =~= child_hashes(all.take(0), parent@));
    while i < ctx.len()
        invariant
            i <= ctx.len(),
            all == node_views(ctx@),
            crate::bytes::strictly_ascending(views(kids@)),
            views(kids@).to_set() == child_hashes(all.take(i as int), parent@),
        decreases ctx.len() - i,
    {
        proof {
            lemma_child_hashes_grow(all, parent@, i as int);
            assert(all[i as int] == ctx@[i as int]@);
        }
        if bytes_eq(ctx[i].parent_hash.as_slice(), parent) {
            insert_ascending(&mut kids, ctx[i].hash.as_slice());
        }
        i += 1;
    }
    proof {
        assert(all.take(all.len() as int) == all);
        lemma_ascending_is(views(kids@), child_hashes(all, parent@));
    }
    kids
}

/// The digest that the node at `c` has by its content as it stands.
pub fn recompute(ctx: &Vec<Node>, c: usize) -> (out: Vec<u8>)
    requires
        c < ctx.len(),
    ensures
        out@ == recomputed_hash(node_views(ctx@), c as int),
        out@.len() == DIGEST_LEN,
{
    let node = &ctx[c];
    assert(node_views(ctx@)[c as int] == node@);
    match node.kind {
        NodeKind::File => leaf_hash(node.metadata_hash.as_slice(), node.data_hash.as_slice()),
        NodeKind::Directory => {
            let kids = children_of(ctx, node.hash.as_slice());
            dir_hash(node.metadata_hash.as_slice(), &kids)
        },
    }
}

/// A node with nothing in it, to stand in a slot whose node is being worked
/// on: a file without digest, metadata, parent or data.
fn blank() -> (out: Node)
    ensures
        out@ == (NodeView {
            hash: Seq::empty(),
            kind: NodeKind::File,
            metadata: Seq::empty(),
            metadata_hash: Seq::empty(),
            parent_hash: Seq::empty(),
            data_hash: Seq::empty(),
            data: Seq::empty(),
        }),
{
    Node {
        hash: Vec::new(),
        kind: NodeKind::File,
        metadata: Vec::new(),
        metadata_hash: Vec::new(),
        parent_hash: Vec::new(),
        data_hash: Vec::new(),
        data: Vec::new(),
    }
}

/// Gives the node at `c` the digest `new_hash` and points its children at
/// it.
pub fn relink(ctx: &mut Vec<Node>, c: usize, new_hash: &[u8])
    requires
        c < old(ctx).len(),
    ensures
        node_views(final(ctx)@) == spec_relink(node_views(old(ctx)@), c as int, new_hash@),
{
    let ghost before = node_views(ctx@);
    let ghost after = spec_relink(before, c as int, new_hash@);
    let dir = ctx[c].is_dir();
    let old_hash = copy_bytes(ctx[c].hash.as_slice());
    assert(before[c as int] == ctx@[c as int]@);
    let mut i: usize = 0;
    while i < ctx.len()
        invariant
            i <= ctx.len(),
            c < ctx.len(),
            ctx@.len() == before.len(),
            after == spec_relink(before, c as int, new_hash@),
            dir == (before[c as int].kind == NodeKind::Directory),
            old_hash@ == before[c as int].hash,
            forall|k: int| 0 <= k < i ==> (#[trigger] ctx@[k])@ == after[k],
            forall|k: int| i <= k < ctx@.len() ==> (#[trigger] ctx@[k])@ == before[k],
        decreases ctx.len() - i,
    {
        let child = dir && bytes_eq(ctx[i].parent_hash.as_slice(), old_hash.as_slice());
        assert(child == is_child_of(before, c as int, i as int));
        if child || i == c {
            let mut node = blank();
            ctx.set_and_swap(i, &mut node);
            if child {
                node.parent_hash = copy_bytes(new_hash);
            }
            if i == c {
                node.hash = copy_bytes(new_hash);
            }
            ctx.set(i, node);
        }
        i += 1;
    }
    assert(node_views(ctx@) =~= after);
}

/// Recomputes the digests from the node with the digest `start` up to the
/// root.
///
/// The way up is read off `context` as it is handed in: the node with the
/// digest `start`, then the node whose digest it names as its parent, and so
/// on until a node names a digest that no node has. Then, at each node on
/// that way in turn, the digest is taken anew from the node's content as it
/// stands, and the nodes that named the old digest as their parent are
/// pointed at the new one. Every node keeps its position, kind, metadata,
/// metadata digest, data digest and payload; every digest written has 48
/// bytes.
///
/// Fails with `InconsistentTree` where no node of `context` has the digest
/// `start`, and where the chain of parents does not end, which is so where
/// it comes back to a node.
pub fn update_tree(start: &[u8], context: Vec<Node>) -> (updated: Result<Vec<Node>, TreeError>)
    ensures
        match updated {
            Ok(out) => spec_update_tree(node_views(context@), start@) == Ok::<
                Seq<NodeView>,
                TreeError,
            >(node_views(out@)),
            Err(e) => spec_update_tree(node_views(context@), start@) == Err::<
                Seq<NodeView>,
                TreeError,
            >(e),
        },
        updated matches Ok(out) ==> same_contents(node_views(context@), node_views(out@)),
        updated matches Ok(out) ==> kept_or_renewed(node_views(context@), node_views(out@)),
{
    let ghost before = node_views(context@);
    proof {
        update_keeps_contents(before, start@);
    }
    let mut ctx = context;
    let c: usize = match find(&ctx, start) {
        None => {
            return Err(TreeError::InconsistentTree);
        },
        Some(c) => c,
    };
    let route = match chain_of(&ctx, c) {
        None => {
            return Err(TreeError::InconsistentTree);
        },
        Some(r) => r,
    };
    let ghost way = positions(route@);
    let ghost goal = spec_steps(before, way);
    let mut k: usize = 0;
    assert(way.skip(0) =~= way);
    while k < route.len()
        invariant
            k <= route.len(),
            way == positions(route@),
            ctx@.len() == before.len(),
            forall|j: int| 0 <= j < route@.len() ==> #[trigger] route@[j] < before.len(),
            spec_steps(node_views(ctx@), way.skip(k as int)) == goal,
            kept_or_renewed(before, node_views(ctx@)),
        decreases route.len() - k,
    {
        let at: usize = route[k];
        let ghost here = node_views(ctx@);
        let new_hash = recompute(&ctx, at);
        relink(&mut ctx, at, new_hash.as_slice());
        proof {
            let rest = way.skip(k as int);
            assert(rest[0] == at);
            assert(rest.drop_first() =~= way.skip(k + 1));
            assert(node_views(ctx@) == spec_step(here, at as int));
            assert(node_views(ctx@).len() == here.len());
        }
        k += 1;
    }
    Ok(ctx)
}

} // verus!
