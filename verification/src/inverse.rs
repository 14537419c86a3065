//! A delete undoes an insert: taking the new node out again and recomputing
//! gives back the context as it was.

use crate::ancestry::{find_hash, lemma_chain_closed, lemma_chain_ends_in_time, lemma_chain_link,
    lemma_chain_no_duplicates, lemma_chain_step, lemma_find_some, lemma_found, spec_chain};
use crate::laws::update_keeps_contents;
use crate::mutator::{child_hashes, is_child_of, recomputed_hash, spec_relink, spec_step,
    spec_steps, spec_update_tree};
use crate::node::{same_content, same_contents, NodeKind, NodeView, TreeError};
use crate::propagation::{ancestors, has_parent_from, has_propagated, is_consistent, is_new,
    is_unique, lemma_find_distinct, propagates, steps_are_new_to, update_propagates};
use crate::workflow::{spec_candidate, spec_delete_node, spec_insert_node, spec_top_hash,
    MutationView};
use vstd::prelude::*;

verus! {

/// The node at `k` of the chain has the digest that the node before it names
/// as its parent.
pub open spec fn is_linked(tree: Seq<NodeView>, chain: Seq<int>, k: int) -> bool {
    tree[chain[k]].hash == tree[chain[k - 1]].parent_hash
}

/// The node at `i` is one of the first `k` of the chain.
pub open spec fn is_below(chain: Seq<int>, k: int, i: int) -> bool {
    exists|j: int| 0 <= j < k && #[trigger] chain[j] == i
}

/// The node at `i` names one of the first `k` of the chain as its parent.
pub open spec fn is_under(ctx: Seq<NodeView>, chain: Seq<int>, k: int, i: int) -> bool {
    exists|j: int| 0 <= j < k && ctx[i].parent_hash == ctx[#[trigger] chain[j]].hash
}

/// The tree between `later` and `ctx`: the first `k` nodes of the chain have
/// the digests of `ctx`, and so have the parents of the nodes under them;
/// all else is as in `later`.
pub open spec fn spec_between(
    ctx: Seq<NodeView>,
    later: Seq<NodeView>,
    chain: Seq<int>,
    k: int,
) -> Seq<NodeView> {
    Seq::new(
        ctx.len(),
        |i: int|
            NodeView {
                hash: if is_below(chain, k, i) {
                    ctx[i].hash
                } else {
                    later[i].hash
                },
                parent_hash: if is_under(ctx, chain, k, i) {
                    ctx[i].parent_hash
                } else {
                    later[i].parent_hash
                },
                ..ctx[i]
            },
    )
}

/// What an insert that can be undone starts from: the new node names the
/// parent and has a digest that no node of the context has; the digests
/// propagate from the parent through directories, each new to the context
/// with the new node; and every ancestor has the digest that follows from
/// its content.
pub open spec fn can_be_undone(ctx: Seq<NodeView>, node: NodeView) -> bool {
    let tree = ctx.push(node);
    let chain = ancestors(tree, node.parent_hash);
    &&& propagates(tree, node.parent_hash)
    &&& steps_are_new_to(tree, tree, chain)
    &&& is_unique(tree, ctx.len() as int)
    &&& forall|x: int| #[trigger]
        chain.contains(x) ==> tree[x].kind == NodeKind::Directory && is_consistent(ctx, x)
}

/// What is known of the tree `out` that the insert left, of the context
/// `ctx` before it and of the chain that the insert went along.
pub open spec fn is_after_insert(
    ctx: Seq<NodeView>,
    node: NodeView,
    chain: Seq<int>,
    out: Seq<NodeView>,
) -> bool {
    let tree = ctx.push(node);
    &&& can_be_undone(ctx, node)
    &&& chain == ancestors(tree, node.parent_hash)
    &&& spec_update_tree(tree, node.parent_hash) == Ok::<Seq<NodeView>, TreeError>(out)
    &&& has_propagated(tree, chain, Set::empty(), out)
    &&& same_contents(tree, out)
    &&& chain.no_duplicates()
    &&& chain.len() >= 1
    &&& forall|k: int| 0 <= k < chain.len() ==> 0 <= #[trigger] chain[k] < ctx.len()
    &&& forall|x: int| #[trigger] chain.contains(x) ==> is_new(tree, out[x].hash)
    &&& forall|k: int| 0 < k < chain.len() ==> #[trigger] is_linked(tree, chain, k)
    &&& tree[chain[0]].hash == node.parent_hash
    &&& find_hash(tree, tree[chain.last()].parent_hash) is None
}

/// What the chain of ancestors of the parent of the last node of `tree`
/// holds: each node once, none of them the last node, each but the first
/// with the digest that the one before names as its parent, and the first
/// with the digest that the last node names.
pub proof fn lemma_chain_of_insert(tree: Seq<NodeView>, start: Seq<u8>)
    requires
        tree.len() >= 1,
        tree.last().parent_hash == start,
        find_hash(tree, start) is Some,
        spec_chain(tree, find_hash(tree, start)->0, (tree.len() - 1) as nat) is Some,
        is_unique(tree, find_hash(tree, start)->0),
    ensures
        ({
            let chain = ancestors(tree, start);
            &&& chain.no_duplicates()
            &&& chain.len() >= 1
            &&& forall|k: int| 0 <= k < chain.len() ==> 0 <= #[trigger] chain[k] < tree.len() - 1
            &&& forall|k: int| 0 < k < chain.len() ==> #[trigger] is_linked(tree, chain, k)
            &&& tree[chain[0]].hash == start
            &&& find_hash(tree, tree[chain.last()].parent_hash) is None
        }),
{
    let n = tree.len() - 1;
    let fuel = (tree.len() - 1) as nat;
    let chain = ancestors(tree, start);
    lemma_find_some(tree, start);
    let c = find_hash(tree, start)->0;
    lemma_chain_closed(tree, c, fuel);
    lemma_chain_no_duplicates(tree, c, fuel);
    assert forall|k: int| 0 < k < chain.len() implies #[trigger] is_linked(tree, chain, k) by {
        lemma_chain_link(tree, c, fuel, k);
    }
    // the last node is none of the ancestors: its parent would come twice
    assert forall|k: int| 0 <= k < chain.len() implies 0 <= #[trigger] chain[k] < tree.len()
        - 1 by {
        if chain[k] == n {
            lemma_find_distinct(tree, c);
            lemma_chain_step(tree, c, fuel, k);
            assert(chain[k + 1] == c && chain[0] == c);
        }
    }
}

/// The insert leaves what `is_after_insert` says.
pub proof fn lemma_after_insert(ctx: Seq<NodeView>, node: NodeView)
    requires
        can_be_undone(ctx, node),
    ensures
        spec_update_tree(ctx.push(node), node.parent_hash) is Ok,
        is_after_insert(
            ctx,
            node,
            ancestors(ctx.push(node), node.parent_hash),
            spec_update_tree(ctx.push(node), node.parent_hash)->Ok_0,
        ),
{
    let tree = ctx.push(node);
    let start = node.parent_hash;
    update_propagates(tree, start);
    update_keeps_contents(tree, start);
    lemma_find_some(tree, start);
    let c = find_hash(tree, start)->0;
    lemma_chain_closed(tree, c, (tree.len() - 1) as nat);
    assert(ancestors(tree, start).contains(c));
    assert(is_unique(tree, c));
    lemma_chain_of_insert(tree, start);
}

/// The next of the chain is below from then on.
proof fn lemma_below_next(chain: Seq<int>, k: int, i: int)
    requires
        0 <= k < chain.len(),
    ensures
        is_below(chain, k + 1, i) <==> (is_below(chain, k, i) || chain[k] == i),
{
    if is_below(chain, k + 1, i) {
        let j = choose|j: int| 0 <= j < k + 1 && #[trigger] chain[j] == i;
        if j < k {
            assert(is_below(chain, k, i));
        }
    }
    if is_below(chain, k, i) {
        let j = choose|j: int| 0 <= j < k && #[trigger] chain[j] == i;
        assert(0 <= j < k + 1 && chain[j] == i);
    }
    if chain[k] == i {
        assert(0 <= k < k + 1 && chain[k] == i);
    }
}

/// The children of the next of the chain are under from then on.
proof fn lemma_under_next(ctx: Seq<NodeView>, chain: Seq<int>, k: int, i: int)
    requires
        0 <= k < chain.len(),
    ensures
        is_under(ctx, chain, k + 1, i) <==> (is_under(ctx, chain, k, i) || ctx[i].parent_hash
            == ctx[chain[k]].hash),
{
    if is_under(ctx, chain, k + 1, i) {
        let j = choose|j: int|
            0 <= j < k + 1 && ctx[i].parent_hash == ctx[#[trigger] chain[j]].hash;
        if j < k {
            assert(is_under(ctx, chain, k, i));
        }
    }
    if is_under(ctx, chain, k, i) {
        let j = choose|j: int| 0 <= j < k && ctx[i].parent_hash == ctx[#[trigger] chain[j]].hash;
        assert(0 <= j < k + 1 && ctx[i].parent_hash == ctx[chain[j]].hash);
    }
    if ctx[i].parent_hash == ctx[chain[k]].hash {
        assert(0 <= k < k + 1 && ctx[i].parent_hash == ctx[chain[k]].hash);
    }
}

/// A node of the chain that names a node of the chain as its parent stands
/// right before it.
pub proof fn lemma_parent_on_chain(
    ctx: Seq<NodeView>,
    node: NodeView,
    chain: Seq<int>,
    out: Seq<NodeView>,
    j: int,
    k: int,
)
    requires
        is_after_insert(ctx, node, chain, out),
        0 <= j < chain.len(),
        0 <= k < chain.len(),
        ctx[chain[j]].parent_hash == ctx[chain[k]].hash,
    ensures
        j + 1 == k,
{
    let tree = ctx.push(node);
    let x = chain[k];
    assert(chain.contains(x));
    assert(tree[x] == ctx[x] && tree[chain[j]] == ctx[chain[j]]);
    lemma_find_distinct(tree, x);
    if j + 1 < chain.len() {
        assert(is_linked(tree, chain, j + 1));
        assert(tree[chain[j + 1]] == ctx[chain[j + 1]]);
        assert(chain[j + 1] == x);
    } else {
        assert(chain.last() == chain[j]);
    }
}

/// In the tree between, the nodes that name the digest that the node at `k`
/// of the chain has after the insert are those that named it before.
proof fn lemma_between_names(
    ctx: Seq<NodeView>,
    node: NodeView,
    chain: Seq<int>,
    out: Seq<NodeView>,
    k: int,
    i: int,
)
    requires
        is_after_insert(ctx, node, chain, out),
        0 <= k < chain.len(),
        0 <= i < ctx.len(),
    ensures
        (spec_between(ctx, out, chain, k)[i].parent_hash == out[chain[k]].hash) <==> (
        ctx[i].parent_hash == ctx[chain[k]].hash),
{
    let tree = ctx.push(node);
    let x = chain[k];
    assert(chain.contains(x));
    assert(tree[x] == ctx[x] && tree[i] == ctx[i]);
    assert(is_new(tree, out[x].hash));
    if ctx[i].parent_hash == ctx[x].hash {
        if is_under(ctx, chain, k, i) {
            let j = choose|j: int|
                0 <= j < k && ctx[i].parent_hash == ctx[#[trigger] chain[j]].hash;
            assert(tree[chain[j]] == ctx[chain[j]]);
            assert(is_unique(tree, x));
            assert(chain[j] != x);
        }
        assert(is_child_of(tree, x, i));
        assert(out[i].parent_hash == out[x].hash);
    }
    if spec_between(ctx, out, chain, k)[i].parent_hash == out[x].hash {
        if is_under(ctx, chain, k, i) {
            assert(tree[i].parent_hash != out[x].hash);
        } else {
            assert(out[i].parent_hash == out[x].hash);
            assert(tree[i].parent_hash == tree[x].hash);
        }
    }
}

/// In the tree between, a child of the node at `k` of the chain has the
/// digest that it had before the insert.
proof fn lemma_between_child(
    ctx: Seq<NodeView>,
    node: NodeView,
    chain: Seq<int>,
    out: Seq<NodeView>,
    k: int,
    i: int,
)
    requires
        is_after_insert(ctx, node, chain, out),
        0 <= k < chain.len(),
        0 <= i < ctx.len(),
        ctx[i].parent_hash == ctx[chain[k]].hash,
    ensures
        spec_between(ctx, out, chain, k)[i].hash == ctx[i].hash,
{
    let tree = ctx.push(node);
    assert(tree[i] == ctx[i]);
    if !is_below(chain, k, i) {
        if chain.contains(i) {
            let j = choose|j: int| 0 <= j < chain.len() && chain[j] == i;
            lemma_parent_on_chain(ctx, node, chain, out, j, k);
            assert(0 <= j < k && chain[j] == i);
        }
        assert(out[i].hash == tree[i].hash);
    }
}

/// In the tree between, the node at `k` of the chain has the children that
/// it had before the insert.
proof fn lemma_between_children(
    ctx: Seq<NodeView>,
    node: NodeView,
    chain: Seq<int>,
    out: Seq<NodeView>,
    k: int,
)
    requires
        is_after_insert(ctx, node, chain, out),
        0 <= k < chain.len(),
    ensures
        child_hashes(spec_between(ctx, out, chain, k), out[chain[k]].hash) == child_hashes(
            ctx,
            ctx[chain[k]].hash,
        ),
{
    let here = spec_between(ctx, out, chain, k);
    let nh = out[chain[k]].hash;
    let h = ctx[chain[k]].hash;
    assert forall|d: Seq<u8>| child_hashes(here, nh).contains(d) == child_hashes(ctx, h).contains(
        d,
    ) by {
        if child_hashes(here, nh).contains(d) {
            let i = choose|i: int|
                0 <= i < here.len() && (#[trigger] here[i]).parent_hash == nh && here[i].hash == d;
            lemma_between_names(ctx, node, chain, out, k, i);
            lemma_between_child(ctx, node, chain, out, k, i);
            assert(ctx[i].parent_hash == h && ctx[i].hash == d);
        }
        if child_hashes(ctx, h).contains(d) {
            let i = choose|i: int|
                0 <= i < ctx.len() && (#[trigger] ctx[i]).parent_hash == h && ctx[i].hash == d;
            lemma_between_names(ctx, node, chain, out, k, i);
            lemma_between_child(ctx, node, chain, out, k, i);
            assert(here[i].parent_hash == nh && here[i].hash == d);
        }
    }
    assert(child_hashes(here, nh) =~= child_hashes(ctx, h));
}

/// A step at the node at `k` of the chain takes the tree between from `k` to
/// `k + 1`: the node gets back the digest that it had before the insert, and
/// its children name it again.
proof fn lemma_undo_step(
    ctx: Seq<NodeView>,
    node: NodeView,
    chain: Seq<int>,
    out: Seq<NodeView>,
    k: int,
)
    requires
        is_after_insert(ctx, node, chain, out),
        0 <= k < chain.len(),
    ensures
        spec_step(spec_between(ctx, out, chain, k), chain[k]) == spec_between(
            ctx,
            out,
            chain,
            k + 1,
        ),
{
    let here = spec_between(ctx, out, chain, k);
    let next = spec_between(ctx, out, chain, k + 1);
    let x = chain[k];
    assert(chain.contains(x));
    assert(!is_below(chain, k, x)) by {
        if is_below(chain, k, x) {
            let j = choose|j: int| 0 <= j < k && #[trigger] chain[j] == x;
            assert(chain[j] != chain[k]);
        }
    }
    assert(here[x].hash == out[x].hash);
    lemma_between_children(ctx, node, chain, out, k);
    assert(recomputed_hash(here, x) == recomputed_hash(ctx, x));
    assert(is_consistent(ctx, x));
    let h = ctx[x].hash;
    let stepped = spec_relink(here, x, h);
    assert forall|i: int| 0 <= i < ctx.len() implies stepped[i] == next[i] by {
        lemma_between_names(ctx, node, chain, out, k, i);
        lemma_below_next(chain, k, i);
        lemma_under_next(ctx, chain, k, i);
        assert(is_child_of(here, x, i) == (ctx[i].parent_hash == h));
    }
    assert(stepped =~= next);
}

/// The steps along the rest of the chain take the tree between from `k` to
/// the end.
proof fn lemma_undo_steps(
    ctx: Seq<NodeView>,
    node: NodeView,
    chain: Seq<int>,
    out: Seq<NodeView>,
    k: int,
)
    requires
        is_after_insert(ctx, node, chain, out),
        0 <= k <= chain.len(),
    ensures
        spec_steps(spec_between(ctx, out, chain, k), chain.skip(k)) == spec_between(
            ctx,
            out,
            chain,
            chain.len() as int,
        ),
    decreases chain.len() - k,
{
    let rest = chain.skip(k);
    if k < chain.len() {
        lemma_undo_step(ctx, node, chain, out, k);
        lemma_undo_steps(ctx, node, chain, out, k + 1);
        assert(rest[0] == chain[k]);
        assert(rest.drop_first() =~= chain.skip(k + 1));
    } else {
        assert(rest.len() == 0);
    }
}

/// Before any step, the tree between is the tree that the insert left,
/// without the new node.
proof fn lemma_between_first(
    ctx: Seq<NodeView>,
    node: NodeView,
    chain: Seq<int>,
    out: Seq<NodeView>,
)
    requires
        is_after_insert(ctx, node, chain, out),
    ensures
        spec_between(ctx, out, chain, 0) == out.take(ctx.len() as int),
        out.remove(ctx.len() as int) == out.take(ctx.len() as int),
{
    let tree = ctx.push(node);
    let first = spec_between(ctx, out, chain, 0);
    let kept = out.take(ctx.len() as int);
    assert forall|i: int| 0 <= i < ctx.len() implies first[i] == kept[i] by {
        assert(tree[i] == ctx[i]);
        assert(same_content(out[i], tree[i]));
    }
    assert(first =~= kept);
    assert(out.remove(ctx.len() as int) =~= kept);
}

/// After the last step, the tree between is the context.
proof fn lemma_between_last(
    ctx: Seq<NodeView>,
    node: NodeView,
    chain: Seq<int>,
    out: Seq<NodeView>,
)
    requires
        is_after_insert(ctx, node, chain, out),
    ensures
        spec_between(ctx, out, chain, chain.len() as int) == ctx,
{
    let tree = ctx.push(node);
    let all = chain.len() as int;
    let last = spec_between(ctx, out, chain, all);
    assert forall|i: int| 0 <= i < ctx.len() implies last[i] == ctx[i] by {
        assert(tree[i] == ctx[i]);
        if !is_below(chain, all, i) {
            if chain.contains(i) {
                let j = choose|j: int| 0 <= j < chain.len() && chain[j] == i;
                assert(0 <= j < all && chain[j] == i);
            }
            assert(out[i].hash == tree[i].hash);
        }
        if !is_under(ctx, chain, all, i) {
            assert(has_parent_from(tree, chain, out, out[i].parent_hash, i));
            if out[i].parent_hash != tree[i].parent_hash {
                let y = choose|y: int| #[trigger]
                    chain.contains(y) && out[i].parent_hash == out[y].hash;
                assert(tree[i].parent_hash == tree[y].hash);
                let j = choose|j: int| 0 <= j < chain.len() && chain[j] == y;
                assert(tree[chain[j]] == ctx[chain[j]]);
                assert(0 <= j < all && ctx[i].parent_hash == ctx[chain[j]].hash);
            }
        }
    }
    assert(last =~= ctx);
}

/// No other node of the tree that the insert left, without the new node,
/// has the digest of a node of the chain.
proof fn lemma_unique_later(
    ctx: Seq<NodeView>,
    node: NodeView,
    chain: Seq<int>,
    out: Seq<NodeView>,
    k: int,
)
    requires
        is_after_insert(ctx, node, chain, out),
        0 <= k < chain.len(),
    ensures
        is_unique(out.take(ctx.len() as int), chain[k]),
        find_hash(out.take(ctx.len() as int), out[chain[k]].hash) == Some(chain[k]),
{
    let kept = out.take(ctx.len() as int);
    let x = chain[k];
    assert(chain.contains(x));
    assert(is_unique(out, x));
    assert forall|j: int| 0 <= j < kept.len() && j != x implies (#[trigger] kept[j]).hash
        != kept[x].hash by {
        assert(out[j].hash != out[x].hash);
    }
    lemma_find_distinct(kept, x);
}

/// In the tree that the insert left, without the new node, the chain of
/// ancestors from the node at `k` of the chain is the rest of the chain.
proof fn lemma_chain_later(
    ctx: Seq<NodeView>,
    node: NodeView,
    chain: Seq<int>,
    out: Seq<NodeView>,
    k: int,
)
    requires
        is_after_insert(ctx, node, chain, out),
        0 <= k < chain.len(),
    ensures
        spec_chain(out.take(ctx.len() as int), chain[k], (chain.len() - 1 - k) as nat) == Some(
            chain.skip(k),
        ),
    decreases chain.len() - k,
{
    let tree = ctx.push(node);
    let kept = out.take(ctx.len() as int);
    let x = chain[k];
    assert(chain.contains(x));
    assert(kept[x].parent_hash == out[x].parent_hash);
    if k + 1 < chain.len() {
        let next = chain[k + 1];
        assert(chain.contains(next));
        assert(is_linked(tree, chain, k + 1));
        assert(is_child_of(tree, next, x));
        assert(out[x].parent_hash == out[next].hash);
        lemma_unique_later(ctx, node, chain, out, k + 1);
        lemma_chain_later(ctx, node, chain, out, k + 1);
        assert(chain.skip(k) =~= seq![x] + chain.skip(k + 1));
    } else {
        assert(chain.last() == x);
        let e = tree[x].parent_hash;
        assert(out[x].parent_hash == e);
        if find_hash(kept, e) is Some {
            lemma_find_some(kept, e);
            let i = find_hash(kept, e)->0;
            assert(out[i].hash == e);
            if chain.contains(i) {
                assert(is_new(tree, out[i].hash));
                assert(tree[x].parent_hash != out[i].hash);
            } else {
                assert(out[i].hash == tree[i].hash);
                lemma_found(tree, e, i);
            }
        }
        assert(chain.skip(k) =~= seq![x]);
    }
}

/// A delete undoes an insert. Where a node is put into a context in which
/// every ancestor of its parent has the digest that follows from its
/// content, and the digests propagate through directories, each new to the
/// context with the node: the node is found again by its digest, and taking
/// it out and recomputing from the parent that it then names gives back the
/// context, node by node.
pub proof fn delete_undoes_insert(ctx: Seq<NodeView>, node: NodeView)
    requires
        can_be_undone(ctx, node),
    ensures
        spec_update_tree(ctx.push(node), node.parent_hash) is Ok,
        ({
            let out = spec_update_tree(ctx.push(node), node.parent_hash)->Ok_0;
            let at = ctx.len() as int;
            &&& out.len() == ctx.len() + 1
            &&& find_hash(out, node.hash) == Some(at)
            &&& spec_update_tree(out.remove(at), out[at].parent_hash) == Ok::<
                Seq<NodeView>,
                TreeError,
            >(ctx)
        }),
{
    let tree = ctx.push(node);
    let at = ctx.len() as int;
    lemma_after_insert(ctx, node);
    let chain = ancestors(tree, node.parent_hash);
    let out = spec_update_tree(tree, node.parent_hash)->Ok_0;
    let kept = out.take(at);
    // the new node is found by its digest
    assert(!chain.contains(at)) by {
        if chain.contains(at) {
            let j = choose|j: int| 0 <= j < chain.len() && chain[j] == at;
            assert(0 <= chain[j] < ctx.len());
        }
    }
    assert(out[at].hash == tree[at].hash);
    assert(is_unique(out, at)) by {
        assert forall|j: int| 0 <= j < out.len() && j != at implies (#[trigger] out[j]).hash
            != out[at].hash by {
            if chain.contains(j) {
                assert(is_new(tree, out[j].hash));
            } else {
                assert(out[j].hash == tree[j].hash);
            }
        }
    }
    lemma_find_distinct(out, at);
    // the way up from its parent is the chain of the insert
    lemma_between_first(ctx, node, chain, out);
    assert(chain.contains(chain[0]));
    assert(is_child_of(tree, chain[0], at));
    assert(out[at].parent_hash == out[chain[0]].hash);
    lemma_unique_later(ctx, node, chain, out, 0);
    lemma_chain_later(ctx, node, chain, out, 0);
    assert(chain.skip(0) =~= chain);
    lemma_chain_ends_in_time(kept, chain[0], (chain.len() - 1) as nat);
    // and the steps along it give back the context
    lemma_undo_steps(ctx, node, chain, out, 0);
    lemma_between_last(ctx, node, chain, out);
}

/// Deleting what was inserted gives back the tree and the top hash: where an
/// insert that can be undone succeeds on a context with a top hash, deleting
/// the new node from the new tree succeeds, and leaves the context as it was
/// before the insert, under the top hash that it had.
pub proof fn delete_after_insert_restores(
    ctx: Seq<NodeView>,
    parent_hash: Seq<u8>,
    metadata: Seq<u8>,
    kind: NodeKind,
    data: Option<Seq<u8>>,
)
    requires
        can_be_undone(ctx, spec_candidate(parent_hash, metadata, kind, data)),
        spec_top_hash(ctx) is Ok,
    ensures
        spec_insert_node(ctx, parent_hash, metadata, kind, data) matches Ok(m) ==> spec_delete_node(
            m.new_tree,
            spec_candidate(parent_hash, metadata, kind, data).hash,
        ) == Ok::<MutationView, TreeError>(
            MutationView {
                old_tree: m.new_tree,
                new_tree: ctx,
                new_top_hash: spec_top_hash(ctx)->Ok_0,
            },
        ),
{
    let node = spec_candidate(parent_hash, metadata, kind, data);
    assert(node.parent_hash == parent_hash);
    delete_undoes_insert(ctx, node);
}

} // verus!
