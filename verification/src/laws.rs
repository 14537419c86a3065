//! What holds of the digests and of the workflows, whatever the input.

use crate::digest::spec_metadata_hash;
use crate::ancestry::{find_hash, lemma_chain_closed, lemma_chain_ends_in_time,
    lemma_chain_no_duplicates, lemma_find_some, spec_chain};
use crate::mutator::{child_hashes, recomputed_hash, spec_step, spec_steps, spec_update_tree};
use crate::node::{same_content, same_contents, NodeKind, NodeView, TreeError};
use crate::workflow::{is_invalid_insert, is_only_root, spec_candidate, spec_delete_node,
    spec_insert_node, spec_mutate, spec_top_hash, MutationView};
use vstd::prelude::*;

verus! {

/// The digest of a metadata blob depends on its bytes alone: equal bytes have
/// equal digests.
pub proof fn metadata_hash_is_deterministic(a: Seq<u8>, b: Seq<u8>)
    requires
        a == b,
    ensures
        spec_metadata_hash(a) == spec_metadata_hash(b),
{
}

/// The children of a digest are the same set in two contexts that hold the
/// same nodes, in whatever order.
pub proof fn child_hashes_ignore_order(a: Seq<NodeView>, b: Seq<NodeView>, parent: Seq<u8>)
    requires
        forall|n: NodeView| a.contains(n) <==> b.contains(n),
    ensures
        child_hashes(a, parent) == child_hashes(b, parent),
{
    assert forall|x: Seq<u8>| child_hashes(a, parent).contains(x) == child_hashes(
        b,
        parent,
    ).contains(x) by {
        if child_hashes(a, parent).contains(x) {
            let i = choose|i: int|
                0 <= i < a.len() && (#[trigger] a[i]).parent_hash == parent && a[i].hash == x;
            assert(a.contains(a[i]));
            assert(b.contains(a[i]));
            let j = choose|j: int| 0 <= j < b.len() && b[j] == a[i];
            assert(b[j].parent_hash == parent && b[j].hash == x);
        }
        if child_hashes(b, parent).contains(x) {
            let i = choose|i: int|
                0 <= i < b.len() && (#[trigger] b[i]).parent_hash == parent && b[i].hash == x;
            assert(b.contains(b[i]));
            assert(a.contains(b[i]));
            let j = choose|j: int| 0 <= j < a.len() && a[j] == b[i];
            assert(a[j].parent_hash == parent && a[j].hash == x);
        }
    }
    assert(child_hashes(a, parent) =~= child_hashes(b, parent));
}

/// The digest of a directory does not depend on the order in which its
/// children were put into the context: two contexts that hold the same nodes
/// give a directory the same digest.
pub proof fn directory_hash_ignores_order(a: Seq<NodeView>, at_a: int, b: Seq<NodeView>, at_b: int)
    requires
        0 <= at_a < a.len(),
        0 <= at_b < b.len(),
        a[at_a] == b[at_b],
        forall|n: NodeView| a.contains(n) <==> b.contains(n),
    ensures
        recomputed_hash(a, at_a) == recomputed_hash(b, at_b),
{
    child_hashes_ignore_order(a, b, a[at_a].hash);
}

/// One step changes digests and parents only.
pub proof fn step_keeps_contents(ctx: Seq<NodeView>, c: int)
    requires
        0 <= c < ctx.len(),
    ensures
        same_contents(ctx, spec_step(ctx, c)),
        spec_step(ctx, c)[c].hash == recomputed_hash(ctx, c),
        forall|i: int|
            0 <= i < ctx.len() && i != c ==> (#[trigger] spec_step(ctx, c)[i]).hash == ctx[i].hash,
{
}

/// Steps change digests and parents only: every node keeps its position,
/// kind, metadata, metadata digest, data digest and payload.
pub proof fn steps_keep_contents(ctx: Seq<NodeView>, route: Seq<int>)
    requires
        forall|k: int| 0 <= k < route.len() ==> 0 <= #[trigger] route[k] < ctx.len(),
    ensures
        same_contents(ctx, spec_steps(ctx, route)),
    decreases route.len(),
{
    if route.len() > 0 {
        step_keeps_contents(ctx, route[0]);
        let stepped = spec_step(ctx, route[0]);
        let rest = route.drop_first();
        assert forall|k: int| 0 <= k < rest.len() implies 0 <= #[trigger] rest[k]
            < stepped.len() by {
            assert(rest[k] == route[k + 1]);
        }
        steps_keep_contents(stepped, rest);
        let out = spec_steps(stepped, rest);
        assert forall|i: int| 0 <= i < ctx.len() implies same_content(
            #[trigger] out[i],
            ctx[i],
        ) by {
            assert(same_content(out[i], stepped[i]));
            assert(same_content(stepped[i], ctx[i]));
        }
    }
}

/// Recomputing the digests changes digests and parents only.
pub proof fn update_keeps_contents(ctx: Seq<NodeView>, start: Seq<u8>)
    ensures
        spec_update_tree(ctx, start) matches Ok(out) ==> same_contents(ctx, out),
        spec_update_tree(ctx, start) is Ok ==> find_hash(ctx, start) is Some,
{
    if spec_update_tree(ctx, start) is Ok {
        lemma_find_some(ctx, start);
        let c = find_hash(ctx, start)->0;
        lemma_chain_closed(ctx, c, (ctx.len() - 1) as nat);
        steps_keep_contents(ctx, spec_chain(ctx, c, (ctx.len() - 1) as nat)->0);
    }
}

/// Recomputing returns on every chain of parents that ends: where following
/// the parents from the node with the digest `start` comes, after however
/// many steps, to a node whose parent is not in the context, each node on
/// that chain is stepped once, from the start upwards, and the last one
/// stepped is that node.
pub proof fn update_follows_the_chain(ctx: Seq<NodeView>, start: Seq<u8>, fuel: nat)
    requires
        find_hash(ctx, start) is Some,
        spec_chain(ctx, find_hash(ctx, start)->0, fuel) is Some,
    ensures
        ({
            let chain = spec_chain(ctx, find_hash(ctx, start)->0, fuel)->0;
            &&& spec_update_tree(ctx, start) == Ok::<Seq<NodeView>, TreeError>(
                spec_steps(ctx, chain),
            )
            &&& chain.no_duplicates()
            &&& chain.len() >= 1
            &&& chain[0] == find_hash(ctx, start)->0
            &&& find_hash(ctx, ctx[chain.last()].parent_hash) is None
        }),
{
    lemma_find_some(ctx, start);
    let c = find_hash(ctx, start)->0;
    lemma_chain_ends_in_time(ctx, c, fuel);
    lemma_chain_closed(ctx, c, fuel);
    lemma_chain_no_duplicates(ctx, c, fuel);
}

/// Recomputing fails in two cases only, and both are `InconsistentTree`: no
/// node has the digest `start`, or the chain of parents never ends.
pub proof fn update_fails_only_without_a_way(ctx: Seq<NodeView>, start: Seq<u8>)
    ensures
        spec_update_tree(ctx, start) is Err <==> (find_hash(ctx, start) is None || forall|
            fuel: nat,
        | #[trigger] spec_chain(ctx, find_hash(ctx, start)->0, fuel) is None),
        spec_update_tree(ctx, start) matches Err(e) ==> e == TreeError::InconsistentTree,
{
    if find_hash(ctx, start) is Some {
        lemma_find_some(ctx, start);
        let c = find_hash(ctx, start)->0;
        if spec_update_tree(ctx, start) is Err {
            assert forall|fuel: nat| #[trigger] spec_chain(ctx, c, fuel) is None by {
                if spec_chain(ctx, c, fuel) is Some {
                    lemma_chain_ends_in_time(ctx, c, fuel);
                }
            }
        } else {
            assert(spec_chain(ctx, c, (ctx.len() - 1) as nat) is Some);
        }
    }
}

/// Where a change succeeds, the top hash that it reports is the digest of
/// the one root of the new tree, and that root is a directory.
pub proof fn top_hash_is_root_hash(old_tree: Seq<NodeView>, tree: Seq<NodeView>, start: Seq<u8>)
    ensures
        spec_mutate(old_tree, tree, start) matches Ok(m) ==> exists|r: int|
            is_only_root(m.new_tree, r) && m.new_tree[r].kind == NodeKind::Directory
                && m.new_tree[r].hash == m.new_top_hash,
{
    match spec_mutate(old_tree, tree, start) {
        Ok(m) => {
            let out = m.new_tree;
            assert(spec_top_hash(out) is Ok);
            let r = choose|r: int| is_only_root(out, r) && out[r].kind == NodeKind::Directory;
            assert(is_only_root(out, r) && out[r].kind == NodeKind::Directory && out[r].hash
                == m.new_top_hash);
        },
        Err(_) => {},
    }
}

/// A directory with a payload is refused whatever the context holds, and
/// nothing comes back that could be written.
pub proof fn directory_with_payload_is_refused(
    ctx: Seq<NodeView>,
    parent_hash: Seq<u8>,
    metadata: Seq<u8>,
    data: Seq<u8>,
)
    ensures
        spec_insert_node(ctx, parent_hash, metadata, NodeKind::Directory, Some(data)) == Err::<
            MutationView,
            TreeError,
        >(TreeError::InvalidRequest),
{
}

/// Where an insert succeeds, the new tree holds the nodes of the context at
/// their positions and with their content, and after them the new node with
/// the metadata, kind and payload of the request. The tree before is the
/// context as it was handed in.
pub proof fn insert_round_trip(
    ctx: Seq<NodeView>,
    parent_hash: Seq<u8>,
    metadata: Seq<u8>,
    kind: NodeKind,
    data: Option<Seq<u8>>,
)
    ensures
        spec_insert_node(ctx, parent_hash, metadata, kind, data) matches Ok(m) ==> {
            &&& m.old_tree == ctx
            &&& m.new_tree.len() == ctx.len() + 1
            &&& same_contents(ctx, m.new_tree.take(ctx.len() as int))
            &&& m.new_tree.last().metadata == metadata
            &&& m.new_tree.last().kind == kind
            &&& same_content(
                m.new_tree.last(),
                spec_candidate(parent_hash, metadata, kind, data),
            )
            &&& !is_invalid_insert(kind, data)
            &&& find_hash(ctx, parent_hash) is Some
        },
{
    match spec_insert_node(ctx, parent_hash, metadata, kind, data) {
        Ok(m) => {
            let grown = ctx.push(spec_candidate(parent_hash, metadata, kind, data));
            update_keeps_contents(grown, parent_hash);
            let out = m.new_tree;
            assert(same_contents(grown, out));
            assert forall|i: int| 0 <= i < ctx.len() implies same_content(
                #[trigger] out.take(ctx.len() as int)[i],
                ctx[i],
            ) by {
                assert(same_content(out[i], grown[i]));
            }
            assert(same_content(out[ctx.len() as int], grown[ctx.len() as int]));
        },
        Err(_) => {},
    }
}

/// Where a delete succeeds, the new tree holds the nodes of the context but
/// the deleted one, in their order and with their content.
pub proof fn delete_keeps_the_rest(ctx: Seq<NodeView>, hash: Seq<u8>)
    ensures
        spec_delete_node(ctx, hash) matches Ok(m) ==> {
            &&& m.old_tree == ctx
            &&& find_hash(ctx, hash) is Some
            &&& same_contents(ctx.remove(find_hash(ctx, hash)->0), m.new_tree)
        },
{
    if spec_delete_node(ctx, hash) is Ok {
        lemma_find_some(ctx, hash);
        let i = find_hash(ctx, hash)->0;
        update_keeps_contents(ctx.remove(i), ctx[i].parent_hash);
    }
}

} // verus!
