//! The context of a node: the least part of the store from which the
//! digests from that node up to the root can be recomputed.

use crate::bytes::bytes_eq;
use crate::ancestry::{chain_of, find, find_hash, lemma_chain_closed, lemma_chain_link,
    lemma_find_some, positions, spec_chain};
use crate::mutator::child_hashes;
use crate::node::{node_views, Node, NodeView, TreeError};
use vstd::prelude::*;

verus! {

/// Whether the node at `i` belongs to the context of `target`, whose chain
/// of ancestors is `chain`: it is on the chain, or it has the same parent as
/// a node on the chain, or it is a child of `target`.
pub open spec fn in_context(store: Seq<NodeView>, chain: Seq<int>, target: Seq<u8>, i: int) -> bool {
    ||| store[i].parent_hash == target
    ||| exists|k: int|
        0 <= k < chain.len() && (#[trigger] chain[k] == i || (store[i].parent_hash.len() > 0
            && store[i].parent_hash == store[chain[k]].parent_hash))
}

/// The nodes among the first `n` of `store` that belong to the context, in
/// their order.
pub open spec fn spec_pick(store: Seq<NodeView>, chain: Seq<int>, target: Seq<u8>, n: int) -> Seq<
    NodeView,
>
    decreases n,
{
    if n <= 0 {
        Seq::empty()
    } else if in_context(store, chain, target, n - 1) {
        spec_pick(store, chain, target, n - 1).push(store[n - 1])
    } else {
        spec_pick(store, chain, target, n - 1)
    }
}

/// The context of the node with the digest `target`: that node and its
/// ancestors, the nodes that share a parent with one of them, and the
/// children of the node, each once and in the order of the store.
///
/// It is `NotFound` where the store has no node with that digest, and
/// `InconsistentTree` where the chain of ancestors holds more nodes than the
/// store.
pub open spec fn spec_select_context(store: Seq<NodeView>, target: Seq<u8>) -> Result<
    Seq<NodeView>,
    TreeError,
> {
    match find_hash(store, target) {
        None => Err(TreeError::NotFound),
        Some(t) => match spec_chain(store, t, (store.len() - 1) as nat) {
            None => Err(TreeError::InconsistentTree),
            Some(chain) => Ok(spec_pick(store, chain, target, store.len() as int)),
        },
    }
}

/// Whether the node at `i` belongs to the context.
fn belongs(store: &Vec<Node>, chain: &Vec<usize>, target: &[u8], i: usize) -> (yes: bool)
    requires
        i < store.len(),
        forall|k: int| 0 <= k < chain@.len() ==> #[trigger] chain@[k] < store.len(),
    ensures
        yes == in_context(node_views(store@), positions(chain@), target@, i as int),
{
    let ghost all = node_views(store@);
    let ghost pos = positions(chain@);
    assert(all[i as int] == store@[i as int]@);
    if bytes_eq(store[i].parent_hash.as_slice(), target) {
        return true;
    }
    let has_parent: bool = store[i].parent_hash.len() > 0;
    let mut k: usize = 0;
    while k < chain.len()
        invariant
            k <= chain.len(),
            i < store.len(),
            all == node_views(store@),
            pos == positions(chain@),
            has_parent == (all[i as int].parent_hash.len() > 0),
            forall|j: int| 0 <= j < chain@.len() ==> #[trigger] chain@[j] < store.len(),
            forall|j: int|
                0 <= j < k ==> !(#[trigger] pos[j] == i || (all[i as int].parent_hash.len() > 0
                    && all[i as int].parent_hash == all[pos[j]].parent_hash)),
        decreases chain.len() - k,
    {
        let c: usize = chain[k];
        assert(pos[k as int] == c);
        assert(all[c as int] == store@[c as int]@);
        if c == i || (has_parent && bytes_eq(
            store[i].parent_hash.as_slice(),
            store[c].parent_hash.as_slice(),
        )) {
            return true;
        }
        k += 1;
    }
    false
}

/// The context of the node with the digest `target`, taken from `store`:
/// the node and its ancestors, the nodes that share a parent with one of
/// them, and the children of the node.
///
/// Every node of the context comes once, in the order of `store`. Roots
/// share no parent: of the nodes without a parent only the root on the way
/// up from `target` is taken.
///
/// Fails with `NotFound` where `store` has no node with the digest `target`,
/// and with `InconsistentTree` where the chain of ancestors is longer than
/// the store has nodes.
pub fn select_context(store: &Vec<Node>, target: &[u8]) -> (context: Result<Vec<Node>, TreeError>)
    ensures
        match context {
            Ok(nodes) => spec_select_context(node_views(store@), target@) == Ok::<
                Seq<NodeView>,
                TreeError,
            >(node_views(nodes@)),
            Err(e) => spec_select_context(node_views(store@), target@) == Err::<
                Seq<NodeView>,
                TreeError,
            >(e),
        },
{
    let ghost all = node_views(store@);
    let at = match find(store, target) {
        None => {
            return Err(TreeError::NotFound);
        },
        Some(t) => t,
    };
    let chain = match chain_of(store, at) {
        None => {
            return Err(TreeError::InconsistentTree);
        },
        Some(c) => c,
    };
    let ghost pos = positions(chain@);
    let mut nodes: Vec<Node> = Vec::new();
    let mut i: usize = 0;
    assert(node_views(nodes@) =~= spec_pick(all, pos, target@, 0));
    while i < store.len()
        invariant
            i <= store.len(),
            all == node_views(store@),
            pos == positions(chain@),
            forall|k: int| 0 <= k < chain@.len() ==> #[trigger] chain@[k] < store.len(),
            node_views(nodes@) == spec_pick(all, pos, target@, i as int),
        decreases store.len() - i,
    {
        if belongs(store, &chain, target, i) {
            let ghost before = node_views(nodes@);
            nodes.push(store[i].duplicate());
            assert(all[i as int] == store@[i as int]@);
            assert(node_views(nodes@) =~= before.push(all[i as int]));
        }
        i += 1;
    }
    Ok(nodes)
}

/// What a context holds of the store.
pub open spec fn holds_what_is_needed(
    store: Seq<NodeView>,
    chain: Seq<int>,
    context: Seq<NodeView>,
) -> bool {
    &&& forall|i: int| 0 <= i < context.len() ==> store.contains(#[trigger] context[i])
    &&& forall|x: int| #[trigger] chain.contains(x) ==> context.contains(store[x])
    &&& forall|x: int| #[trigger]
        chain.contains(x) && store[x].hash.len() > 0 ==> child_hashes(context, store[x].hash)
            == child_hashes(store, store[x].hash)
}

/// The nodes picked among the first `n` are those that belong to the
/// context.
pub proof fn lemma_pick_members(
    store: Seq<NodeView>,
    chain: Seq<int>,
    target: Seq<u8>,
    n: int,
    node: NodeView,
)
    requires
        0 <= n <= store.len(),
    ensures
        spec_pick(store, chain, target, n).contains(node) <==> exists|i: int|
            0 <= i < n && in_context(store, chain, target, i) && #[trigger] store[i] == node,
    decreases n,
{
    if n > 0 {
        lemma_pick_members(store, chain, target, n - 1, node);
        let before = spec_pick(store, chain, target, n - 1);
        let picked = spec_pick(store, chain, target, n);
        if in_context(store, chain, target, n - 1) {
            assert(picked =~= before.push(store[n - 1]));
            if picked.contains(node) {
                let k = choose|k: int| 0 <= k < picked.len() && picked[k] == node;
                if k < before.len() {
                    assert(before[k] == node);
                    assert(before.contains(node));
                } else {
                    assert(store[n - 1] == node);
                }
            }
            if before.contains(node) {
                let k = choose|k: int| 0 <= k < before.len() && before[k] == node;
                assert(picked[k] == node);
            }
            if store[n - 1] == node {
                assert(picked[before.len() as int] == node);
            }
        }
    }
}

/// A context suffices: it holds nothing that the store does not hold, it
/// holds the node and each of its ancestors, and each of these has the same
/// children in the context as in the store, so that its digest is recomputed
/// from the context as it would be from the store. (A node with an empty
/// digest is set aside: its children would be the roots.)
pub proof fn context_suffices(store: Seq<NodeView>, target: Seq<u8>)
    ensures
        spec_select_context(store, target) matches Ok(context) ==> holds_what_is_needed(
            store,
            spec_chain(store, find_hash(store, target)->0, (store.len() - 1) as nat)->0,
            context,
        ),
{
    match spec_select_context(store, target) {
        Ok(context) => {
            lemma_find_some(store, target);
            let t = find_hash(store, target)->0;
            let fuel = (store.len() - 1) as nat;
            let chain = spec_chain(store, t, fuel)->0;
            let n = store.len() as int;
            lemma_chain_closed(store, t, fuel);
            assert forall|i: int| 0 <= i < context.len() implies store.contains(
                #[trigger] context[i],
            ) by {
                lemma_pick_members(store, chain, target, n, context[i]);
                assert(context.contains(context[i]));
            }
            assert forall|x: int| #[trigger] chain.contains(x) implies context.contains(
                store[x],
            ) by {
                let k = choose|k: int| 0 <= k < chain.len() && chain[k] == x;
                assert(in_context(store, chain, target, x));
                lemma_pick_members(store, chain, target, n, store[x]);
            }
            assert forall|x: int| #[trigger]
                chain.contains(x) && store[x].hash.len() > 0 implies child_hashes(
                context,
                store[x].hash,
            ) == child_hashes(store, store[x].hash) by {
                let h = store[x].hash;
                let k = choose|k: int| 0 <= k < chain.len() && chain[k] == x;
                if k > 0 {
                    lemma_chain_link(store, t, fuel, k);
                }
                assert forall|d: Seq<u8>| child_hashes(context, h).contains(d) == child_hashes(
                    store,
                    h,
                ).contains(d) by {
                    if child_hashes(context, h).contains(d) {
                        let i = choose|i: int|
                            0 <= i < context.len() && (#[trigger] context[i]).parent_hash == h
                                && context[i].hash == d;
                        assert(store.contains(context[i]));
                        let j = choose|j: int| 0 <= j < store.len() && store[j] == context[i];
                        assert(store[j].parent_hash == h && store[j].hash == d);
                    }
                    if child_hashes(store, h).contains(d) {
                        let j = choose|j: int|
                            0 <= j < store.len() && (#[trigger] store[j]).parent_hash == h
                                && store[j].hash == d;
                        assert(in_context(store, chain, target, j)) by {
                            if k > 0 {
                                let below = chain[k - 1];
                                assert(store[j].parent_hash == store[below].parent_hash);
                            }
                        }
                        lemma_pick_members(store, chain, target, n, store[j]);
                        let i = choose|i: int| 0 <= i < context.len() && context[i] == store[j];
                        assert(context[i].parent_hash == h && context[i].hash == d);
                    }
                }
                assert(child_hashes(context, h) =~= child_hashes(store, h));
            }
        },
        Err(_) => {},
    }
}

/// Reading a context twice from a store that did not change gives the same
/// nodes: what is read depends on the store and the digest alone.
pub proof fn select_context_is_repeatable(
    store: Seq<NodeView>,
    again: Seq<NodeView>,
    target: Seq<u8>,
)
    requires
        store == again,
    ensures
        spec_select_context(store, target) == spec_select_context(again, target),
{
}

} // verus!
