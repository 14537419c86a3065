//! Two inserts under one directory give the same tree in either order.

use crate::ancestry::{find_hash, is_first, lemma_chain_closed, lemma_chain_ends_in_time,
    lemma_find_is, lemma_find_some, lemma_found, spec_chain};
use crate::inverse::{can_be_undone, is_after_insert, is_linked, lemma_after_insert,
    lemma_parent_on_chain};
use crate::laws::update_keeps_contents;
use crate::mutator::{child_hashes, is_child_of, recomputed_hash, spec_update_tree};
use crate::node::{same_content, same_contents, NodeKind, NodeView, TreeError};
use crate::propagation::{ancestors, has_parent_from, has_propagated, is_consistent, is_new,
    is_unique, propagates, update_propagates};
use crate::workflow::{is_only_root, lemma_top_hash_is, spec_candidate, spec_insert_node,
    spec_top_hash};
use vstd::prelude::*;

verus! {

/// The tree that a first insert leaves.
pub open spec fn spec_first(ctx: Seq<NodeView>, first: NodeView) -> Seq<NodeView> {
    spec_update_tree(ctx.push(first), first.parent_hash)->Ok_0
}

/// The digest that the parent has after a first insert.
pub open spec fn spec_second_start(ctx: Seq<NodeView>, first: NodeView) -> Seq<u8> {
    spec_first(ctx, first)[ancestors(ctx.push(first), first.parent_hash)[0]].hash
}

/// The tree into which a second node is put after a first: the tree that the
/// first insert left, and the second node under the digest that the parent
/// has by then.
pub open spec fn spec_second_tree(
    ctx: Seq<NodeView>,
    first: NodeView,
    second: NodeView,
) -> Seq<NodeView> {
    spec_first(ctx, first).push(second.with_parent(spec_second_start(ctx, first)))
}

/// The tree after `first` and then `second` were inserted under the same
/// parent.
pub open spec fn spec_both(ctx: Seq<NodeView>, first: NodeView, second: NodeView) -> Result<
    Seq<NodeView>,
    TreeError,
> {
    spec_update_tree(spec_second_tree(ctx, first, second), spec_second_start(ctx, first))
}

/// What two inserts in a row start from: both nodes name the same parent and
/// have digests that are not empty, the first can be inserted as
/// `can_be_undone` says, and the digests propagate when the second is
/// inserted after it.
pub open spec fn can_follow(ctx: Seq<NodeView>, first: NodeView, second: NodeView) -> bool {
    &&& can_be_undone(ctx, first)
    &&& first.parent_hash == second.parent_hash
    &&& first.hash.len() > 0
    &&& second.hash.len() > 0
    &&& propagates(spec_second_tree(ctx, first, second), spec_second_start(ctx, first))
}

/// What is known of the tree `both` that two inserts in a row left.
pub open spec fn is_after_both(
    ctx: Seq<NodeView>,
    first: NodeView,
    second: NodeView,
    chain: Seq<int>,
    both: Seq<NodeView>,
) -> bool {
    let tree = spec_second_tree(ctx, first, second);
    &&& can_follow(ctx, first, second)
    &&& is_after_insert(ctx, first, chain, spec_first(ctx, first))
    &&& spec_both(ctx, first, second) == Ok::<Seq<NodeView>, TreeError>(both)
    &&& has_propagated(tree, chain, Set::empty(), both)
    &&& same_contents(tree, both)
}

/// After an insert, no other node of the tree with one more node has the
/// digest of a node of the chain before that node, so that the node is
/// found by its digest.
proof fn lemma_found_on_chain(
    ctx: Seq<NodeView>,
    first: NodeView,
    chain: Seq<int>,
    out: Seq<NodeView>,
    extra: NodeView,
    k: int,
)
    requires
        is_after_insert(ctx, first, chain, out),
        0 <= k < chain.len(),
    ensures
        find_hash(out.push(extra), out[chain[k]].hash) == Some(chain[k]),
{
    let tree = out.push(extra);
    let x = chain[k];
    assert(chain.contains(x));
    assert(is_unique(out, x));
    assert(is_first(tree, out[x].hash, x)) by {
        assert(tree[x] == out[x]);
        assert forall|j: int| 0 <= j < x implies (#[trigger] tree[j]).hash != out[x].hash by {
            assert(tree[j] == out[j]);
            assert(out[j].hash != out[x].hash);
        }
    }
    lemma_find_is(tree, out[x].hash, x);
}

/// After an insert, in the tree with one more node, the chain of ancestors
/// from the node at `k` of the chain is the rest of the chain.
proof fn lemma_chain_second(
    ctx: Seq<NodeView>,
    first: NodeView,
    chain: Seq<int>,
    out: Seq<NodeView>,
    extra: NodeView,
    k: int,
)
    requires
        is_after_insert(ctx, first, chain, out),
        extra.hash.len() > 0,
        0 <= k < chain.len(),
    ensures
        spec_chain(out.push(extra), chain[k], (chain.len() - 1 - k) as nat) == Some(chain.skip(k)),
    decreases chain.len() - k,
{
    let before = ctx.push(first);
    let tree = out.push(extra);
    let x = chain[k];
    assert(chain.contains(x));
    assert(tree[x] == out[x]);
    if k + 1 < chain.len() {
        let next = chain[k + 1];
        assert(chain.contains(next));
        assert(is_linked(before, chain, k + 1));
        assert(is_child_of(before, next, x));
        assert(out[x].parent_hash == out[next].hash);
        lemma_found_on_chain(ctx, first, chain, out, extra, k + 1);
        lemma_chain_second(ctx, first, chain, out, extra, k + 1);
        assert(chain.skip(k) =~= seq![x] + chain.skip(k + 1));
    } else {
        assert(chain.last() == x);
        let e = before[x].parent_hash;
        assert(out[x].parent_hash == e);
        assert(e.len() == 0);
        if find_hash(tree, e) is Some {
            lemma_find_some(tree, e);
            let i = find_hash(tree, e)->0;
            if i < out.len() {
                assert(tree[i] == out[i]);
                if chain.contains(i) {
                    assert(is_new(before, out[i].hash));
                    assert(before[x].parent_hash != out[i].hash);
                } else {
                    assert(out[i].hash == before[i].hash);
                    lemma_found(before, e, i);
                }
            }
        }
        assert(chain.skip(k) =~= seq![x]);
    }
}

/// Two inserts in a row leave what `is_after_both` says, along the chain of
/// the first.
pub proof fn lemma_after_both(ctx: Seq<NodeView>, first: NodeView, second: NodeView)
    requires
        can_follow(ctx, first, second),
    ensures
        spec_both(ctx, first, second) is Ok,
        is_after_both(
            ctx,
            first,
            second,
            ancestors(ctx.push(first), first.parent_hash),
            spec_both(ctx, first, second)->Ok_0,
        ),
{
    let chain = ancestors(ctx.push(first), first.parent_hash);
    let out = spec_first(ctx, first);
    let start = spec_second_start(ctx, first);
    let extra = second.with_parent(start);
    let tree = spec_second_tree(ctx, first, second);
    lemma_after_insert(ctx, first);
    lemma_found_on_chain(ctx, first, chain, out, extra, 0);
    lemma_chain_second(ctx, first, chain, out, extra, 0);
    assert(chain.skip(0) =~= chain);
    lemma_chain_ends_in_time(tree, chain[0], (chain.len() - 1) as nat);
    assert(ancestors(tree, start) == chain);
    update_propagates(tree, start);
    update_keeps_contents(tree, start);
}

/// The node that stands at `i` after two inserts in a row, as it was before
/// them: a node of the context, the first or the second node.
pub open spec fn spec_origin(ctx: Seq<NodeView>, first: NodeView, second: NodeView, i: int) -> NodeView {
    if i < ctx.len() {
        ctx[i]
    } else if i == ctx.len() {
        first
    } else {
        second
    }
}

/// After two inserts in a row, a node that is off the chain has the digest
/// that it had before.
proof fn lemma_both_digest(
    ctx: Seq<NodeView>,
    first: NodeView,
    second: NodeView,
    chain: Seq<int>,
    both: Seq<NodeView>,
    i: int,
)
    requires
        is_after_both(ctx, first, second, chain, both),
        0 <= i < ctx.len() + 2,
        !chain.contains(i),
    ensures
        both[i].hash == spec_origin(ctx, first, second, i).hash,
        same_content(both[i], spec_origin(ctx, first, second, i)),
{
    let before = ctx.push(first);
    let out = spec_first(ctx, first);
    let tree = spec_second_tree(ctx, first, second);
    assert(both[i].hash == tree[i].hash);
    assert(same_content(both[i], tree[i]));
    if i <= ctx.len() {
        assert(tree[i] == out[i]);
        assert(out[i].hash == before[i].hash);
        assert(same_content(out[i], before[i]));
    }
}

/// After two inserts in a row, a node of the chain has the content that it
/// had before.
proof fn lemma_both_content(
    ctx: Seq<NodeView>,
    first: NodeView,
    second: NodeView,
    chain: Seq<int>,
    both: Seq<NodeView>,
    k: int,
)
    requires
        is_after_both(ctx, first, second, chain, both),
        0 <= k < chain.len(),
    ensures
        same_content(both[chain[k]], ctx[chain[k]]),
        ctx[chain[k]].kind == NodeKind::Directory,
        is_consistent(both, chain[k]),
{
    let before = ctx.push(first);
    let out = spec_first(ctx, first);
    let tree = spec_second_tree(ctx, first, second);
    let x = chain[k];
    assert(chain.contains(x));
    assert(tree[x] == out[x]);
    assert(before[x] == ctx[x]);
    assert(same_content(both[x], tree[x]));
    assert(same_content(out[x], before[x]));
}

/// After two inserts in a row, the nodes that name the node at `k` of the
/// chain as their parent are those that named it before, and for the parent
/// itself the two new nodes.
proof fn lemma_both_names(
    ctx: Seq<NodeView>,
    first: NodeView,
    second: NodeView,
    chain: Seq<int>,
    both: Seq<NodeView>,
    k: int,
    i: int,
)
    requires
        is_after_both(ctx, first, second, chain, both),
        0 <= k < chain.len(),
        0 <= i < ctx.len() + 2,
    ensures
        (both[i].parent_hash == both[chain[k]].hash) <==> (if i < ctx.len() {
            ctx[i].parent_hash == ctx[chain[k]].hash
        } else {
            k == 0
        }),
{
    let before = ctx.push(first);
    let out = spec_first(ctx, first);
    let tree = spec_second_tree(ctx, first, second);
    let x = chain[k];
    let n = ctx.len() as int;
    assert(chain.contains(x));
    assert(chain.contains(chain[0]));
    assert(tree[x] == out[x]);
    assert(before[x] == ctx[x]);
    assert(same_content(out[x], before[x]));
    // in the tree of the second insert
    assert((both[i].parent_hash == both[x].hash) <==> (tree[i].parent_hash == tree[x].hash)) by {
        if tree[i].parent_hash == tree[x].hash {
            assert(is_child_of(tree, x, i));
        }
    }
    if i <= n {
        assert(tree[i] == out[i]);
        // in the tree of the first insert
        assert((out[i].parent_hash == out[x].hash) <==> (before[i].parent_hash
            == before[x].hash)) by {
            if before[i].parent_hash == before[x].hash {
                assert(is_child_of(before, x, i));
            }
        }
        if i == n {
            assert(before[n].parent_hash == before[chain[0]].hash);
            assert(is_unique(before, x));
            if k != 0 {
                assert(chain[0] != chain[k]);
            }
        }
    } else {
        assert(tree[i].parent_hash == out[chain[0]].hash);
        assert(is_unique(out, x));
        if k != 0 {
            assert(chain[0] != chain[k]);
        }
    }
}

/// Where the second node of one run stands in the other.
pub open spec fn spec_swapped(ctx: Seq<NodeView>, i: int) -> int {
    if i == ctx.len() {
        i + 1
    } else if i == ctx.len() + 1 {
        i - 1
    } else {
        i
    }
}

/// A child of the node at `k` of the chain after one run is a child of it,
/// with the same digest, after the other run.
proof fn lemma_child_carries(
    ctx: Seq<NodeView>,
    a: NodeView,
    b: NodeView,
    chain: Seq<int>,
    one: Seq<NodeView>,
    other: Seq<NodeView>,
    k: int,
    i: int,
)
    requires
        is_after_both(ctx, a, b, chain, one),
        is_after_both(ctx, b, a, chain, other),
        0 <= k < chain.len(),
        k > 0 ==> one[chain[k - 1]].hash == other[chain[k - 1]].hash,
        0 <= i < ctx.len() + 2,
        one[i].parent_hash == one[chain[k]].hash,
    ensures
        other[spec_swapped(ctx, i)].parent_hash == other[chain[k]].hash,
        other[spec_swapped(ctx, i)].hash == one[i].hash,
{
    let j = spec_swapped(ctx, i);
    lemma_both_names(ctx, a, b, chain, one, k, i);
    lemma_both_names(ctx, b, a, chain, other, k, j);
    if chain.contains(i) {
        let m = choose|m: int| 0 <= m < chain.len() && chain[m] == i;
        lemma_parent_on_chain(ctx, a, chain, spec_first(ctx, a), m, k);
    } else {
        assert(!chain.contains(j)) by {
            if chain.contains(j) {
                let m = choose|m: int| 0 <= m < chain.len() && chain[m] == j;
                assert(0 <= chain[m] < ctx.len());
            }
        }
        lemma_both_digest(ctx, a, b, chain, one, i);
        lemma_both_digest(ctx, b, a, chain, other, j);
    }
}

/// After either run, the node at `k` of the chain has the same digest.
proof fn lemma_same_digest(
    ctx: Seq<NodeView>,
    a: NodeView,
    b: NodeView,
    chain: Seq<int>,
    one: Seq<NodeView>,
    other: Seq<NodeView>,
    k: int,
)
    requires
        is_after_both(ctx, a, b, chain, one),
        is_after_both(ctx, b, a, chain, other),
        0 <= k < chain.len(),
    ensures
        one[chain[k]].hash == other[chain[k]].hash,
    decreases k,
{
    if k > 0 {
        lemma_same_digest(ctx, a, b, chain, one, other, k - 1);
    }
    let x = chain[k];
    let h = one[x].hash;
    let g = other[x].hash;
    assert forall|d: Seq<u8>| child_hashes(one, h).contains(d) == child_hashes(other, g).contains(
        d,
    ) by {
        if child_hashes(one, h).contains(d) {
            let i = choose|i: int|
                0 <= i < one.len() && (#[trigger] one[i]).parent_hash == h && one[i].hash == d;
            lemma_child_carries(ctx, a, b, chain, one, other, k, i);
            let j = spec_swapped(ctx, i);
            assert(other[j].parent_hash == g && other[j].hash == d);
        }
        if child_hashes(other, g).contains(d) {
            let i = choose|i: int|
                0 <= i < other.len() && (#[trigger] other[i]).parent_hash == g && other[i].hash
                    == d;
            lemma_child_carries(ctx, b, a, chain, other, one, k, i);
            let j = spec_swapped(ctx, i);
            assert(one[j].parent_hash == h && one[j].hash == d);
        }
    }
    assert(child_hashes(one, h) =~= child_hashes(other, g));
    lemma_both_content(ctx, a, b, chain, one, k);
    lemma_both_content(ctx, b, a, chain, other, k);
    assert(recomputed_hash(one, x) == recomputed_hash(other, x));
}

/// A chain of ancestors that keeps off the last node of a tree is the chain
/// in the tree without that node.
proof fn lemma_chain_without(ctx: Seq<NodeView>, node: NodeView, c: int, fuel: nat)
    requires
        0 <= c < ctx.len(),
        spec_chain(ctx.push(node), c, fuel) is Some,
        forall|k: int|
            0 <= k < spec_chain(ctx.push(node), c, fuel)->0.len() ==> 0 <= #[trigger] spec_chain(
                ctx.push(node),
                c,
                fuel,
            )->0[k] < ctx.len(),
    ensures
        spec_chain(ctx, c, fuel) == spec_chain(ctx.push(node), c, fuel),
    decreases fuel,
{
    let tree = ctx.push(node);
    let chain = spec_chain(tree, c, fuel)->0;
    let h = ctx[c].parent_hash;
    assert(tree[c] == ctx[c]);
    match find_hash(tree, h) {
        None => {
            if find_hash(ctx, h) is Some {
                lemma_find_some(ctx, h);
                let i = find_hash(ctx, h)->0;
                assert(tree[i] == ctx[i]);
                lemma_found(tree, h, i);
            }
        },
        Some(q) => {
            lemma_find_some(tree, h);
            let rest = spec_chain(tree, q, (fuel - 1) as nat)->0;
            assert(chain =~= seq![c] + rest);
            lemma_chain_closed(tree, q, (fuel - 1) as nat);
            assert(chain[1] == rest[0]);
            assert(0 <= chain[1] < ctx.len());
            assert(is_first(ctx, h, q)) by {
                assert(tree[q] == ctx[q]);
                assert forall|j: int| 0 <= j < q implies (#[trigger] ctx[j]).hash != h by {
                    assert(tree[j] == ctx[j]);
                    assert(tree[j].hash != h);
                }
            }
            lemma_find_is(ctx, h, q);
            assert forall|k: int| 0 <= k < rest.len() implies 0 <= #[trigger] rest[k]
                < ctx.len() by {
                assert(chain[k + 1] == rest[k]);
                assert(0 <= chain[k + 1] < ctx.len());
            }
            lemma_chain_without(ctx, node, q, (fuel - 1) as nat);
        },
    }
}

/// The chain of an insert is the chain of ancestors of the parent in the
/// context.
proof fn lemma_chain_in_context(ctx: Seq<NodeView>, node: NodeView)
    requires
        can_be_undone(ctx, node),
    ensures
        find_hash(ctx, node.parent_hash) is Some,
        ancestors(ctx.push(node), node.parent_hash) == spec_chain(
            ctx,
            find_hash(ctx, node.parent_hash)->0,
            ctx.len(),
        )->0,
        spec_chain(ctx, find_hash(ctx, node.parent_hash)->0, ctx.len()) is Some,
{
    let tree = ctx.push(node);
    let p = node.parent_hash;
    let chain = ancestors(tree, p);
    lemma_after_insert(ctx, node);
    lemma_find_some(tree, p);
    let c = find_hash(tree, p)->0;
    lemma_chain_closed(tree, c, (tree.len() - 1) as nat);
    assert(chain[0] == c);
    assert(0 <= chain[0] < ctx.len());
    assert(is_first(ctx, p, c)) by {
        assert(tree[c] == ctx[c]);
        assert forall|j: int| 0 <= j < c implies (#[trigger] ctx[j]).hash != p by {
            assert(tree[j] == ctx[j]);
            assert(tree[j].hash != p);
        }
    }
    lemma_find_is(ctx, p, c);
    lemma_chain_without(ctx, node, c, ctx.len());
}

/// After two inserts in a row, a node that names no node of the chain as its
/// parent is a node of the context and names the parent that it named there.
proof fn lemma_parent_kept(
    ctx: Seq<NodeView>,
    first: NodeView,
    second: NodeView,
    chain: Seq<int>,
    both: Seq<NodeView>,
    i: int,
)
    requires
        is_after_both(ctx, first, second, chain, both),
        0 <= i < ctx.len() + 2,
        forall|k: int| 0 <= k < chain.len() ==> both[i].parent_hash != both[#[trigger] chain[k]].hash,
    ensures
        i < ctx.len(),
        both[i].parent_hash == ctx[i].parent_hash,
{
    let before = ctx.push(first);
    let out = spec_first(ctx, first);
    let tree = spec_second_tree(ctx, first, second);
    let n = ctx.len() as int;
    lemma_both_names(ctx, first, second, chain, both, 0, i);
    assert(both[i].parent_hash != both[chain[0]].hash);
    assert(i < n);
    assert(tree[i] == out[i] && before[i] == ctx[i]);
    assert(has_parent_from(tree, chain, both, both[i].parent_hash, i));
    if both[i].parent_hash != tree[i].parent_hash {
        let y = choose|y: int| #[trigger] chain.contains(y) && both[i].parent_hash == both[y].hash;
        let k = choose|k: int| 0 <= k < chain.len() && chain[k] == y;
        assert(both[i].parent_hash != both[chain[k]].hash);
    }
    assert(has_parent_from(before, chain, out, out[i].parent_hash, i));
    if out[i].parent_hash != before[i].parent_hash {
        let y = choose|y: int| #[trigger] chain.contains(y) && out[i].parent_hash == out[y].hash;
        let k = choose|k: int| 0 <= k < chain.len() && chain[k] == y;
        assert(before[i].parent_hash == before[y].hash);
        assert(before[y] == ctx[y]);
        lemma_both_names(ctx, first, second, chain, both, k, i);
        assert(both[i].parent_hash != both[chain[k]].hash);
    }
}

/// After either run, a node names the same parent.
proof fn lemma_same_parent(
    ctx: Seq<NodeView>,
    a: NodeView,
    b: NodeView,
    chain: Seq<int>,
    one: Seq<NodeView>,
    other: Seq<NodeView>,
    i: int,
)
    requires
        is_after_both(ctx, a, b, chain, one),
        is_after_both(ctx, b, a, chain, other),
        0 <= i < ctx.len() + 2,
    ensures
        one[i].parent_hash == other[spec_swapped(ctx, i)].parent_hash,
{
    let j = spec_swapped(ctx, i);
    if exists|k: int| 0 <= k < chain.len() && one[i].parent_hash == one[#[trigger] chain[k]].hash {
        let k = choose|k: int|
            0 <= k < chain.len() && one[i].parent_hash == one[#[trigger] chain[k]].hash;
        if k > 0 {
            lemma_same_digest(ctx, a, b, chain, one, other, k - 1);
        }
        lemma_same_digest(ctx, a, b, chain, one, other, k);
        lemma_child_carries(ctx, a, b, chain, one, other, k, i);
    } else {
        lemma_parent_kept(ctx, a, b, chain, one, i);
        assert(j == i);
        assert forall|k: int| 0 <= k < chain.len() implies other[i].parent_hash
            != other[#[trigger] chain[k]].hash by {
            if other[i].parent_hash == other[chain[k]].hash {
                if k > 0 {
                    lemma_same_digest(ctx, b, a, chain, other, one, k - 1);
                }
                lemma_child_carries(ctx, b, a, chain, other, one, k, i);
                assert(one[i].parent_hash == one[chain[k]].hash);
            }
        }
        lemma_parent_kept(ctx, b, a, chain, other, i);
    }
}

/// After either run, the same node stands at a position, or at the other of
/// the last two.
proof fn lemma_same_node(
    ctx: Seq<NodeView>,
    a: NodeView,
    b: NodeView,
    chain: Seq<int>,
    one: Seq<NodeView>,
    other: Seq<NodeView>,
    i: int,
)
    requires
        is_after_both(ctx, a, b, chain, one),
        is_after_both(ctx, b, a, chain, other),
        0 <= i < ctx.len() + 2,
    ensures
        one[i] == other[spec_swapped(ctx, i)],
{
    let j = spec_swapped(ctx, i);
    lemma_same_parent(ctx, a, b, chain, one, other, i);
    if chain.contains(i) {
        let k = choose|k: int| 0 <= k < chain.len() && chain[k] == i;
        assert(0 <= chain[k] < ctx.len());
        lemma_same_digest(ctx, a, b, chain, one, other, k);
        lemma_both_content(ctx, a, b, chain, one, k);
        lemma_both_content(ctx, b, a, chain, other, k);
    } else {
        assert(!chain.contains(j)) by {
            if chain.contains(j) {
                let m = choose|m: int| 0 <= m < chain.len() && chain[m] == j;
                assert(0 <= chain[m] < ctx.len());
            }
        }
        lemma_both_digest(ctx, a, b, chain, one, i);
        lemma_both_digest(ctx, b, a, chain, other, j);
    }
}

/// Trees that hold the same nodes, but for the last two which have changed
/// places, have the same top hash.
proof fn lemma_same_top(ctx: Seq<NodeView>, one: Seq<NodeView>, other: Seq<NodeView>)
    requires
        one.len() == ctx.len() + 2,
        other.len() == ctx.len() + 2,
        forall|i: int| 0 <= i < ctx.len() + 2 ==> #[trigger] one[i] == other[spec_swapped(ctx, i)],
    ensures
        spec_top_hash(one) == spec_top_hash(other),
{
    assert forall|j: int| 0 <= j < ctx.len() + 2 implies #[trigger] other[j] == one[spec_swapped(
        ctx,
        j,
    )] by {
        let i = spec_swapped(ctx, j);
        assert(one[i] == other[spec_swapped(ctx, i)]);
    }
    if exists|r: int| is_only_root(one, r) && one[r].kind == NodeKind::Directory {
        let r = choose|r: int| is_only_root(one, r) && one[r].kind == NodeKind::Directory;
        let q = spec_swapped(ctx, r);
        assert(one[r] == other[q]);
        assert(is_only_root(other, q)) by {
            assert forall|j: int| 0 <= j < other.len() && j != q implies !(#[trigger] other[j]).is_root() by {
                assert(other[j] == one[spec_swapped(ctx, j)]);
                assert(!one[spec_swapped(ctx, j)].is_root());
            }
        }
        lemma_top_hash_is(one, r);
        lemma_top_hash_is(other, q);
    } else if exists|q: int| is_only_root(other, q) && other[q].kind == NodeKind::Directory {
        let q = choose|q: int| is_only_root(other, q) && other[q].kind == NodeKind::Directory;
        let r = spec_swapped(ctx, q);
        assert(other[q] == one[r]);
        assert(is_only_root(one, r)) by {
            assert forall|j: int| 0 <= j < one.len() && j != r implies !(#[trigger] one[j]).is_root() by {
                assert(one[j] == other[spec_swapped(ctx, j)]);
                assert(!other[spec_swapped(ctx, j)].is_root());
            }
        }
    }
}

/// Two inserts under one directory commute: where `a` can be inserted and
/// `b` after it, and `b` can be inserted and `a` after it, both runs succeed
/// and leave the same nodes, each node of the context at its position and
/// the two new nodes in the order of their coming, and so the same digest of
/// every directory and the same top hash.
pub proof fn inserts_commute(ctx: Seq<NodeView>, a: NodeView, b: NodeView)
    requires
        can_follow(ctx, a, b),
        can_follow(ctx, b, a),
    ensures
        spec_both(ctx, a, b) is Ok,
        spec_both(ctx, b, a) is Ok,
        ({
            let one = spec_both(ctx, a, b)->Ok_0;
            let other = spec_both(ctx, b, a)->Ok_0;
            &&& one.len() == ctx.len() + 2
            &&& other.len() == ctx.len() + 2
            &&& forall|i: int|
                0 <= i < ctx.len() + 2 ==> #[trigger] one[i] == other[spec_swapped(ctx, i)]
            &&& spec_top_hash(one) == spec_top_hash(other)
        }),
{
    lemma_after_both(ctx, a, b);
    lemma_after_both(ctx, b, a);
    lemma_chain_in_context(ctx, a);
    lemma_chain_in_context(ctx, b);
    let chain = ancestors(ctx.push(a), a.parent_hash);
    let one = spec_both(ctx, a, b)->Ok_0;
    let other = spec_both(ctx, b, a)->Ok_0;
    assert(chain == ancestors(ctx.push(b), b.parent_hash));
    assert forall|i: int| 0 <= i < ctx.len() + 2 implies #[trigger] one[i] == other[spec_swapped(
        ctx,
        i,
    )] by {
        lemma_same_node(ctx, a, b, chain, one, other, i);
    }
    lemma_same_top(ctx, one, other);
}

/// The order of two inserts does not matter: where two nodes are inserted
/// under one directory, the second under the digest that the directory has
/// after the first, and both orders can be followed and succeed, the two
/// runs leave the same nodes and the same top hash.
pub proof fn insert_order_does_not_matter(
    ctx: Seq<NodeView>,
    parent_hash: Seq<u8>,
    metadata_a: Seq<u8>,
    kind_a: NodeKind,
    data_a: Option<Seq<u8>>,
    metadata_b: Seq<u8>,
    kind_b: NodeKind,
    data_b: Option<Seq<u8>>,
)
    requires
        can_follow(
            ctx,
            spec_candidate(parent_hash, metadata_a, kind_a, data_a),
            spec_candidate(parent_hash, metadata_b, kind_b, data_b),
        ),
        can_follow(
            ctx,
            spec_candidate(parent_hash, metadata_b, kind_b, data_b),
            spec_candidate(parent_hash, metadata_a, kind_a, data_a),
        ),
    ensures
        ({
            let a = spec_candidate(parent_hash, metadata_a, kind_a, data_a);
            let b = spec_candidate(parent_hash, metadata_b, kind_b, data_b);
            let a_first = spec_insert_node(ctx, parent_hash, metadata_a, kind_a, data_a);
            let b_first = spec_insert_node(ctx, parent_hash, metadata_b, kind_b, data_b);
            a_first is Ok && b_first is Ok ==> {
                let then_b = spec_insert_node(
                    a_first->Ok_0.new_tree,
                    spec_second_start(ctx, a),
                    metadata_b,
                    kind_b,
                    data_b,
                );
                let then_a = spec_insert_node(
                    b_first->Ok_0.new_tree,
                    spec_second_start(ctx, b),
                    metadata_a,
                    kind_a,
                    data_a,
                );
                then_b is Ok && then_a is Ok ==> {
                    &&& then_b->Ok_0.new_top_hash == then_a->Ok_0.new_top_hash
                    &&& forall|i: int|
                        0 <= i < ctx.len() + 2 ==> #[trigger] then_b->Ok_0.new_tree[i]
                            == then_a->Ok_0.new_tree[spec_swapped(ctx, i)]
                }
            }
        }),
{
    let a = spec_candidate(parent_hash, metadata_a, kind_a, data_a);
    let b = spec_candidate(parent_hash, metadata_b, kind_b, data_b);
    inserts_commute(ctx, a, b);
    assert(spec_candidate(spec_second_start(ctx, a), metadata_b, kind_b, data_b) == b.with_parent(
        spec_second_start(ctx, a),
    ));
    assert(spec_candidate(spec_second_start(ctx, b), metadata_a, kind_a, data_a) == a.with_parent(
        spec_second_start(ctx, b),
    ));
}

} // verus!
