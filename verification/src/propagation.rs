//! How a change travels up the tree: what holds of a context after the
//! digests from a node up to the root have been recomputed.

use crate::ancestry::{find_hash, is_first, lemma_chain_closed, lemma_chain_no_duplicates,
    lemma_chain_step, lemma_find_is, lemma_find_some, spec_chain};
use crate::mutator::{child_hashes, is_child_of, recomputed_hash, spec_relink, spec_step, spec_steps,
    spec_update_tree};
use crate::node::{NodeKind, NodeView, TreeError};
use crate::workflow::{is_only_root, spec_candidate, spec_delete_node, spec_insert_node,
    spec_mutate};
use vstd::prelude::*;

verus! {

/// No other node of `ctx` has the digest of the node at `x`.
pub open spec fn is_unique(ctx: Seq<NodeView>, x: int) -> bool {
    forall|j: int| 0 <= j < ctx.len() && j != x ==> (#[trigger] ctx[j]).hash != ctx[x].hash
}

/// The digest `h` is new to `ctx`: no node has it, and none names it as its
/// parent.
pub open spec fn is_new(ctx: Seq<NodeView>, h: Seq<u8>) -> bool {
    forall|i: int| 0 <= i < ctx.len() ==> (#[trigger] ctx[i]).hash != h && ctx[i].parent_hash != h
}

/// The node at `i` has the digest that follows from its content as it
/// stands in `ctx`.
pub open spec fn is_consistent(ctx: Seq<NodeView>, i: int) -> bool {
    ctx[i].hash == recomputed_hash(ctx, i)
}

/// Every digest that the steps along `route` compute is new to the context
/// in which it is computed.
pub open spec fn steps_are_fresh(ctx: Seq<NodeView>, route: Seq<int>) -> bool
    decreases route.len(),
{
    route.len() > 0 ==> is_new(ctx, recomputed_hash(ctx, route[0])) && steps_are_fresh(
        spec_step(ctx, route[0]),
        route.drop_first(),
    )
}

/// Every digest that the steps along `route` compute is new to `seen`.
pub open spec fn steps_are_new_to(seen: Seq<NodeView>, ctx: Seq<NodeView>, route: Seq<int>) -> bool
    decreases route.len(),
{
    route.len() > 0 ==> is_new(seen, recomputed_hash(ctx, route[0])) && steps_are_new_to(
        seen,
        spec_step(ctx, route[0]),
        route.drop_first(),
    )
}

/// Looking up a digest gives the same after a node took a new digest, unless
/// it is the node's old or new digest that is looked up.
pub proof fn lemma_find_stable(ctx: Seq<NodeView>, c: int, nh: Seq<u8>, h: Seq<u8>)
    requires
        0 <= c < ctx.len(),
        h != ctx[c].hash,
        h != nh,
    ensures
        find_hash(spec_relink(ctx, c, nh), h) == find_hash(ctx, h),
{
    let after = spec_relink(ctx, c, nh);
    assert forall|i: int| 0 <= i < ctx.len() implies ((#[trigger] after[i]).hash == h) == (
    ctx[i].hash == h) by {}
    if find_hash(ctx, h) is Some {
        lemma_find_some(ctx, h);
        let i = find_hash(ctx, h)->0;
        assert(is_first(after, h, i)) by {
            assert forall|j: int| 0 <= j < i implies (#[trigger] after[j]).hash != h by {
                assert(ctx[j].hash != h);
            }
        }
        lemma_find_is(after, h, i);
    } else {
        if find_hash(after, h) is Some {
            lemma_find_some(after, h);
            let i = find_hash(after, h)->0;
            assert(is_first(ctx, h, i)) by {
                assert forall|j: int| 0 <= j < i implies (#[trigger] ctx[j]).hash != h by {
                    assert(after[j].hash != h);
                }
            }
            lemma_find_is(ctx, h, i);
        }
    }
}

/// Looking up the digest of a node that no other node has gives that node.
pub proof fn lemma_find_distinct(ctx: Seq<NodeView>, i: int)
    requires
        is_unique(ctx, i),
        0 <= i < ctx.len(),
    ensures
        find_hash(ctx, ctx[i].hash) == Some(i),
{
    assert(is_first(ctx, ctx[i].hash, i)) by {
        assert forall|j: int| 0 <= j < i implies (#[trigger] ctx[j]).hash != ctx[i].hash by {
            assert(ctx[j].hash != ctx[i].hash);
        }
    }
    lemma_find_is(ctx, ctx[i].hash, i);
}

/// A node whose digest no other node has is still such a node after a step
/// to a new digest.
pub proof fn lemma_step_keeps_unique(ctx: Seq<NodeView>, c: int, nh: Seq<u8>, x: int)
    requires
        0 <= c < ctx.len(),
        0 <= x < ctx.len(),
        is_unique(ctx, x),
        is_new(ctx, nh),
    ensures
        is_unique(spec_relink(ctx, c, nh), x),
{
    let after = spec_relink(ctx, c, nh);
    assert forall|j: int| 0 <= j < after.len() && j != x implies (#[trigger] after[j]).hash
        != after[x].hash by {
        assert(ctx[j].hash != ctx[x].hash);
        assert(ctx[j].hash != nh && ctx[x].hash != nh);
    }
}

/// After a directory took a new digest, the nodes that name the new digest
/// are those that named the old one, with the digests they had.
pub proof fn lemma_children_after_step(ctx: Seq<NodeView>, c: int, nh: Seq<u8>)
    requires
        0 <= c < ctx.len(),
        ctx[c].kind == NodeKind::Directory,
        is_new(ctx, nh),
        ctx[c].parent_hash != ctx[c].hash,
    ensures
        child_hashes(spec_relink(ctx, c, nh), nh) == child_hashes(ctx, ctx[c].hash),
{
    let after = spec_relink(ctx, c, nh);
    let old = ctx[c].hash;
    assert forall|x: Seq<u8>| child_hashes(after, nh).contains(x) == child_hashes(
        ctx,
        old,
    ).contains(x) by {
        if child_hashes(after, nh).contains(x) {
            let i = choose|i: int|
                0 <= i < after.len() && (#[trigger] after[i]).parent_hash == nh && after[i].hash
                    == x;
            assert(ctx[i].parent_hash != nh);
            assert(is_child_of(ctx, c, i));
            assert(i != c);
            assert(ctx[i].parent_hash == old && ctx[i].hash == x);
        }
        if child_hashes(ctx, old).contains(x) {
            let i = choose|i: int|
                0 <= i < ctx.len() && (#[trigger] ctx[i]).parent_hash == old && ctx[i].hash == x;
            assert(i != c);
            assert(after[i].parent_hash == nh && after[i].hash == x);
        }
    }
    assert(child_hashes(after, nh) =~= child_hashes(ctx, old));
}

/// After a node took a new digest, the children of another digest are the
/// same as before, provided the node itself is not one of them.
pub proof fn lemma_children_stable(ctx: Seq<NodeView>, c: int, nh: Seq<u8>, dh: Seq<u8>)
    requires
        0 <= c < ctx.len(),
        dh != ctx[c].hash,
        dh != nh,
        ctx[c].parent_hash != dh,
    ensures
        child_hashes(spec_relink(ctx, c, nh), dh) == child_hashes(ctx, dh),
{
    let after = spec_relink(ctx, c, nh);
    assert forall|x: Seq<u8>| child_hashes(after, dh).contains(x) == child_hashes(
        ctx,
        dh,
    ).contains(x) by {
        if child_hashes(after, dh).contains(x) {
            let i = choose|i: int|
                0 <= i < after.len() && (#[trigger] after[i]).parent_hash == dh && after[i].hash
                    == x;
            assert(!is_child_of(ctx, c, i));
            assert(i != c);
            assert(ctx[i].parent_hash == dh && ctx[i].hash == x);
        }
        if child_hashes(ctx, dh).contains(x) {
            let i = choose|i: int|
                0 <= i < ctx.len() && (#[trigger] ctx[i]).parent_hash == dh && ctx[i].hash == x;
            assert(i != c);
            assert(after[i].parent_hash == dh && after[i].hash == x);
        }
    }
    assert(child_hashes(after, dh) =~= child_hashes(ctx, dh));
}

/// A node that took the digest of its content in a step is consistent after
/// the step.
pub proof fn lemma_stepped_is_consistent(ctx: Seq<NodeView>, c: int)
    requires
        0 <= c < ctx.len(),
        is_new(ctx, recomputed_hash(ctx, c)),
        ctx[c].parent_hash != ctx[c].hash,
    ensures
        is_consistent(spec_step(ctx, c), c),
{
    if ctx[c].kind == NodeKind::Directory {
        lemma_children_after_step(ctx, c, recomputed_hash(ctx, c));
    }
}

/// A consistent node stays consistent through the step of another node that
/// is not its child.
pub proof fn lemma_consistent_stays(ctx: Seq<NodeView>, c: int, d: int)
    requires
        0 <= c < ctx.len(),
        0 <= d < ctx.len(),
        d != c,
        is_consistent(ctx, d),
        is_new(ctx, recomputed_hash(ctx, c)),
        ctx[d].hash != ctx[c].hash,
        ctx[c].parent_hash != ctx[d].hash,
    ensures
        is_consistent(spec_step(ctx, c), d),
        spec_step(ctx, c)[d].hash == ctx[d].hash,
{
    lemma_children_stable(ctx, c, recomputed_hash(ctx, c), ctx[d].hash);
}

/// The chain of ancestors from `p` is the same after the node at `c` took a
/// new digest, where `c` is not on the chain and is the parent of no node on
/// it.
pub proof fn lemma_chain_stable(ctx: Seq<NodeView>, c: int, nh: Seq<u8>, p: int, fuel: nat)
    requires
        0 <= c < ctx.len(),
        0 <= p < ctx.len(),
        is_new(ctx, nh),
        spec_chain(ctx, p, fuel) is Some,
        forall|x: int| #[trigger]
            spec_chain(ctx, p, fuel)->0.contains(x) ==> ctx[x].parent_hash != ctx[c].hash,
    ensures
        spec_chain(spec_relink(ctx, c, nh), p, fuel) == spec_chain(ctx, p, fuel),
    decreases fuel,
{
    let after = spec_relink(ctx, c, nh);
    let rest = spec_chain(ctx, p, fuel)->0;
    lemma_chain_closed(ctx, p, fuel);
    assert(rest.contains(p));
    let h = ctx[p].parent_hash;
    assert(after[p].parent_hash == h);
    lemma_find_stable(ctx, c, nh, h);
    match find_hash(ctx, h) {
        None => {},
        Some(q) => {
            lemma_find_some(ctx, h);
            let tail = spec_chain(ctx, q, (fuel - 1) as nat)->0;
            assert(rest =~= seq![p] + tail);
            assert forall|x: int| #[trigger] tail.contains(x) implies ctx[x].parent_hash
                != ctx[c].hash by {
                let m = choose|m: int| 0 <= m < tail.len() && tail[m] == x;
                assert(rest[m + 1] == x);
                assert(rest.contains(x));
            }
            lemma_chain_stable(ctx, c, nh, q, (fuel - 1) as nat);
        },
    }
}

/// A node that names the digest of one node as its parent is no child of
/// another node whose digest no other node has.
pub proof fn lemma_not_child_of_both(ctx: Seq<NodeView>, c: int, d: int, i: int)
    requires
        is_unique(ctx, c),
        0 <= c < ctx.len(),
        0 <= d < ctx.len(),
        0 <= i < ctx.len(),
        c != d,
        ctx[i].parent_hash == ctx[d].hash,
    ensures
        !is_child_of(ctx, c, i),
{
    assert(ctx[d].hash != ctx[c].hash);
}

/// What the walk leaves behind, given the context `ctx` that it started in
/// and the chain of ancestors that it went along: every node of the context
/// is still there, the nodes on the chain have new digests that follow from
/// their content, the other nodes have the digests they had, the last node
/// of the chain has the parent it had, the children of a directory on the
/// chain name its new digest as their parent, no node names a parent that
/// it did not name before, unless it is the new digest of a node on the
/// chain, no other node has the digest of a node on the chain, and only the
/// nodes that named a node on the chain as their parent still do.
pub open spec fn has_propagated(
    ctx: Seq<NodeView>,
    chain: Seq<int>,
    done: Set<int>,
    out: Seq<NodeView>,
) -> bool {
    &&& out.len() == ctx.len()
    &&& forall|d: int| #[trigger] done.contains(d) ==> is_consistent(out, d)
    &&& forall|x: int| #[trigger]
        chain.contains(x) ==> is_consistent(out, x) && out[x].hash != ctx[x].hash
    &&& forall|i: int|
        0 <= i < ctx.len() && !chain.contains(i) ==> (#[trigger] out[i]).hash == ctx[i].hash
    &&& out[chain.last()].parent_hash == ctx[chain.last()].parent_hash
    &&& forall|d: int, i: int|
        #![trigger done.contains(d), out[i]]
        done.contains(d) && 0 <= i < ctx.len() && ctx[i].parent_hash == ctx[d].hash
            ==> out[i].parent_hash == ctx[i].parent_hash
    &&& forall|x: int, i: int|
        #![trigger chain.contains(x), out[i]]
        chain.contains(x) && 0 <= i < ctx.len() && is_child_of(ctx, x, i) ==> out[i].parent_hash
            == out[x].hash
    &&& forall|i: int|
        0 <= i < ctx.len() ==> has_parent_from(ctx, chain, out, #[trigger] out[i].parent_hash, i)
    &&& forall|x: int| #[trigger] chain.contains(x) ==> is_unique(out, x)
    &&& forall|d: int| #[trigger] done.contains(d) ==> is_unique(out, d)
    &&& forall|x: int, i: int|
        #![trigger chain.contains(x), out[i]]
        chain.contains(x) && 0 <= i < ctx.len() && out[i].parent_hash == out[x].hash
            ==> ctx[i].parent_hash == ctx[x].hash
    &&& forall|d: int, i: int|
        #![trigger done.contains(d), out[i]]
        done.contains(d) && 0 <= i < ctx.len() && out[i].parent_hash == ctx[d].hash
            ==> ctx[i].parent_hash == ctx[d].hash
}

/// The parent `parent` that the node at `i` names in `out` is the one it
/// named in `ctx`, or the digest that a node of the chain has in `out`.
pub open spec fn has_parent_from(
    ctx: Seq<NodeView>,
    chain: Seq<int>,
    out: Seq<NodeView>,
    parent: Seq<u8>,
    i: int,
) -> bool {
    parent == ctx[i].parent_hash || exists|y: int| #[trigger]
        chain.contains(y) && parent == out[y].hash
}

/// The steps along a chain of distinct ancestors whose digests no other node
/// has, meeting only new digests, leave every node on the chain with a new
/// digest that follows from its content. The nodes in
/// `done`, which are consistent, off the chain and the parent of no node on
/// it, and whose digests no other node has, stay as they are.
pub proof fn lemma_steps_propagate(
    seen: Seq<NodeView>,
    ctx: Seq<NodeView>,
    c: int,
    fuel: nat,
    done: Set<int>,
)
    requires
        0 <= c < ctx.len(),
        spec_chain(ctx, c, fuel) is Some,
        spec_chain(ctx, c, fuel)->0.no_duplicates(),
        forall|x: int| #[trigger] spec_chain(ctx, c, fuel)->0.contains(x) ==> is_unique(ctx, x),
        steps_are_fresh(ctx, spec_chain(ctx, c, fuel)->0),
        forall|d: int| #[trigger]
            done.contains(d) ==> 0 <= d < ctx.len() && !spec_chain(ctx, c, fuel)->0.contains(d)
                && is_consistent(ctx, d) && is_unique(ctx, d),
        forall|d: int, x: int|
            #![trigger done.contains(d), spec_chain(ctx, c, fuel)->0.contains(x)]
            done.contains(d) && spec_chain(ctx, c, fuel)->0.contains(x) ==> ctx[x].parent_hash
                != ctx[d].hash,
    ensures
        has_propagated(
            ctx,
            spec_chain(ctx, c, fuel)->0,
            done,
            spec_steps(ctx, spec_chain(ctx, c, fuel)->0),
        ),
        steps_are_new_to(seen, ctx, spec_chain(ctx, c, fuel)->0) ==> forall|x: int| #[trigger]
            spec_chain(ctx, c, fuel)->0.contains(x) ==> is_new(
                seen,
                spec_steps(ctx, spec_chain(ctx, c, fuel)->0)[x].hash,
            ),
    decreases fuel,
{
    let chain = spec_chain(ctx, c, fuel)->0;
    let nh = recomputed_hash(ctx, c);
    let after = spec_step(ctx, c);
    lemma_chain_closed(ctx, c, fuel);
    assert(chain.contains(c));
    assert(spec_steps(ctx, chain) == spec_steps(after, chain.drop_first()));
    // the node is not its own parent: it would come twice on its chain
    assert(ctx[c].parent_hash != ctx[c].hash) by {
        if ctx[c].parent_hash == ctx[c].hash {
            lemma_find_distinct(ctx, c);
            let rest = spec_chain(ctx, c, (fuel - 1) as nat)->0;
            lemma_chain_closed(ctx, c, (fuel - 1) as nat);
            assert(chain =~= seq![c] + rest);
            assert(chain[0] == c && chain[1] == c);
        }
    }
    lemma_stepped_is_consistent(ctx, c);
    assert forall|d: int| #[trigger] done.contains(d) implies is_consistent(after, d)
        && after[d].hash == ctx[d].hash by {
        assert(d != c);
        assert(ctx[d].hash != ctx[c].hash);
        assert(done.contains(d) && chain.contains(c));
        lemma_consistent_stays(ctx, c, d);
    }
    match find_hash(ctx, ctx[c].parent_hash) {
        None => {
            assert(chain =~= seq![c]);
            assert(chain.drop_first() =~= Seq::<int>::empty());
            assert(spec_steps(ctx, chain) == after);
            assert forall|x: int| #[trigger] chain.contains(x) implies is_consistent(after, x)
                && after[x].hash != ctx[x].hash by {
                assert(x == c);
            }
            assert forall|i: int| 0 <= i < ctx.len() && !chain.contains(i) implies (
            #[trigger] after[i]).hash == ctx[i].hash by {
                assert(i != c);
            }
            assert forall|d: int, i: int|
                #![trigger done.contains(d), after[i]]
                done.contains(d) && 0 <= i < ctx.len() && ctx[i].parent_hash
                    == ctx[d].hash implies after[i].parent_hash == ctx[i].parent_hash by {
                lemma_not_child_of_both(ctx, c, d, i);
            }
            assert forall|x: int, i: int|
                #![trigger chain.contains(x), after[i]]
                chain.contains(x) && 0 <= i < ctx.len() && is_child_of(
                    ctx,
                    x,
                    i,
                ) implies after[i].parent_hash == after[x].hash by {
                assert(x == c);
            }
            assert forall|i: int| 0 <= i < ctx.len() implies has_parent_from(
                ctx,
                chain,
                after,
                #[trigger] after[i].parent_hash,
                i,
            ) by {
                if after[i].parent_hash != ctx[i].parent_hash {
                    assert(chain.contains(c) && after[i].parent_hash == after[c].hash);
                }
            }
            assert forall|x: int| #[trigger] chain.contains(x) implies is_unique(after, x) by {
                assert(x == c);
                lemma_step_keeps_unique(ctx, c, nh, c);
            }
            assert forall|d: int| #[trigger] done.contains(d) implies is_unique(after, d) by {
                lemma_step_keeps_unique(ctx, c, nh, d);
            }
            assert forall|x: int, i: int|
                #![trigger chain.contains(x), after[i]]
                chain.contains(x) && 0 <= i < ctx.len() && after[i].parent_hash
                    == after[x].hash implies ctx[i].parent_hash == ctx[x].hash by {
                assert(x == c);
                assert(ctx[i].parent_hash != nh);
            }
            assert forall|d: int, i: int|
                #![trigger done.contains(d), after[i]]
                done.contains(d) && 0 <= i < ctx.len() && after[i].parent_hash
                    == ctx[d].hash implies ctx[i].parent_hash == ctx[d].hash by {
                assert(ctx[d].hash != nh);
            }
            if steps_are_new_to(seen, ctx, chain) {
                assert forall|x: int| #[trigger] chain.contains(x) implies is_new(
                    seen,
                    after[x].hash,
                ) by {
                    assert(x == c);
                }
            }
        },
        Some(p) => {
            lemma_find_some(ctx, ctx[c].parent_hash);
            let rest = spec_chain(ctx, p, (fuel - 1) as nat)->0;
            assert(chain =~= seq![c] + rest);
            assert(chain.drop_first() =~= rest);
            lemma_chain_closed(ctx, p, (fuel - 1) as nat);
            assert forall|x: int| #[trigger] rest.contains(x) implies chain.contains(x) && x
                != c by {
                let m = choose|m: int| 0 <= m < rest.len() && rest[m] == x;
                assert(chain[m + 1] == x);
                assert(chain[0] == c);
            }
            // no node further up names the node as its parent
            assert forall|x: int| #[trigger] rest.contains(x) implies ctx[x].parent_hash
                != ctx[c].hash by {
                if ctx[x].parent_hash == ctx[c].hash {
                    lemma_find_distinct(ctx, c);
                    assert(rest.contains(c));
                }
            }
            lemma_chain_stable(ctx, c, nh, p, (fuel - 1) as nat);
            assert forall|x: int| #[trigger] rest.contains(x) implies is_unique(after, x) by {
                assert(chain.contains(x));
                lemma_step_keeps_unique(ctx, c, nh, x);
            }
            assert(rest.no_duplicates()) by {
                assert forall|i: int, j: int|
                    0 <= i < rest.len() && 0 <= j < rest.len() && i != j implies rest[i]
                    != rest[j] by {
                    assert(chain[i + 1] == rest[i] && chain[j + 1] == rest[j]);
                }
            }
            let more = done.insert(c);
            assert forall|d: int| #[trigger] more.contains(d) implies 0 <= d < after.len()
                && !rest.contains(d) && is_consistent(after, d) && is_unique(after, d) by {
                if d != c {
                    assert(done.contains(d));
                }
                lemma_step_keeps_unique(ctx, c, nh, d);
            }
            assert forall|d: int, x: int|
                #![trigger more.contains(d), rest.contains(x)]
                more.contains(d) && rest.contains(x) implies after[x].parent_hash
                != after[d].hash by {
                assert(after[x].parent_hash == ctx[x].parent_hash);
                if d != c {
                    assert(done.contains(d) && chain.contains(x));
                }
            }
            lemma_steps_propagate(seen, after, p, (fuel - 1) as nat, more);
            let out = spec_steps(after, rest);
            assert forall|d: int| #[trigger] done.contains(d) implies is_consistent(out, d) by {
                assert(more.contains(d));
            }
            assert forall|x: int| #[trigger] chain.contains(x) implies is_consistent(out, x)
                && out[x].hash != ctx[x].hash by {
                let k = choose|k: int| 0 <= k < chain.len() && chain[k] == x;
                if k == 0 {
                    assert(more.contains(c));
                    assert(!rest.contains(c));
                    assert(out[c].hash == after[c].hash);
                } else {
                    assert(rest[k - 1] == x);
                    assert(rest.contains(x));
                    assert(after[x].hash == ctx[x].hash);
                }
            }
            assert forall|i: int| 0 <= i < ctx.len() && !chain.contains(i) implies (
            #[trigger] out[i]).hash == ctx[i].hash by {
                assert(i != c);
                assert(!rest.contains(i));
                assert(after[i].hash == ctx[i].hash);
            }
            assert(chain.last() == rest.last());
            assert(rest.contains(rest.last()));
            assert(after[rest.last()].parent_hash == ctx[rest.last()].parent_hash);
            assert forall|d: int, i: int|
                #![trigger done.contains(d), out[i]]
                done.contains(d) && 0 <= i < ctx.len() && ctx[i].parent_hash
                    == ctx[d].hash implies out[i].parent_hash == ctx[i].parent_hash by {
                lemma_not_child_of_both(ctx, c, d, i);
                assert(more.contains(d));
                assert(after[i].parent_hash == after[d].hash);
            }
            assert forall|x: int, i: int|
                #![trigger chain.contains(x), out[i]]
                chain.contains(x) && 0 <= i < ctx.len() && is_child_of(
                    ctx,
                    x,
                    i,
                ) implies out[i].parent_hash == out[x].hash by {
                let k = choose|k: int| 0 <= k < chain.len() && chain[k] == x;
                if k == 0 {
                    assert(more.contains(c));
                    assert(!rest.contains(c));
                    assert(after[i].parent_hash == after[c].hash);
                    assert(out[c].hash == after[c].hash);
                } else {
                    assert(rest[k - 1] == x);
                    assert(rest.contains(x));
                    lemma_not_child_of_both(ctx, c, x, i);
                    assert(is_child_of(after, x, i));
                }
            }
            assert(out[c].hash == after[c].hash) by {
                assert(!rest.contains(c));
            }
            assert forall|i: int| 0 <= i < ctx.len() implies has_parent_from(
                ctx,
                chain,
                out,
                #[trigger] out[i].parent_hash,
                i,
            ) by {
                assert(has_parent_from(after, rest, out, out[i].parent_hash, i));
                if out[i].parent_hash == after[i].parent_hash {
                    if after[i].parent_hash != ctx[i].parent_hash {
                        assert(chain.contains(c) && out[i].parent_hash == out[c].hash);
                    }
                } else {
                    let y = choose|y: int| #[trigger]
                        rest.contains(y) && out[i].parent_hash == out[y].hash;
                    assert(chain.contains(y));
                }
            }
            assert forall|x: int| #[trigger] chain.contains(x) implies is_unique(out, x) by {
                let k = choose|k: int| 0 <= k < chain.len() && chain[k] == x;
                if k == 0 {
                    assert(more.contains(c));
                } else {
                    assert(rest[k - 1] == x);
                    assert(rest.contains(x));
                }
            }
            assert forall|d: int| #[trigger] done.contains(d) implies is_unique(out, d) by {
                assert(more.contains(d));
            }
            assert forall|x: int, i: int|
                #![trigger chain.contains(x), out[i]]
                chain.contains(x) && 0 <= i < ctx.len() && out[i].parent_hash
                    == out[x].hash implies ctx[i].parent_hash == ctx[x].hash by {
                let k = choose|k: int| 0 <= k < chain.len() && chain[k] == x;
                if k == 0 {
                    assert(more.contains(c));
                    assert(after[i].parent_hash == after[c].hash);
                    assert(ctx[i].parent_hash != nh);
                } else {
                    assert(rest[k - 1] == x);
                    assert(rest.contains(x));
                    assert(after[i].parent_hash == after[x].hash);
                    assert(after[x].hash == ctx[x].hash);
                    assert(ctx[x].hash != nh);
                }
            }
            assert forall|d: int, i: int|
                #![trigger done.contains(d), out[i]]
                done.contains(d) && 0 <= i < ctx.len() && out[i].parent_hash
                    == ctx[d].hash implies ctx[i].parent_hash == ctx[d].hash by {
                assert(more.contains(d));
                assert(after[d].hash == ctx[d].hash);
                assert(after[i].parent_hash == after[d].hash);
                assert(ctx[d].hash != nh);
            }
            if steps_are_new_to(seen, ctx, chain) {
                assert forall|x: int| #[trigger] chain.contains(x) implies is_new(
                    seen,
                    out[x].hash,
                ) by {
                    let k = choose|k: int| 0 <= k < chain.len() && chain[k] == x;
                    if k > 0 {
                        assert(rest[k - 1] == x);
                        assert(rest.contains(x));
                    }
                }
            }
        },
    }
}

/// The digests propagate: where the chain of ancestors of the node with the
/// digest `start` ends, no other node of the context has the digest of one
/// of them, and every digest computed on the way up is new to the context,
/// recomputing succeeds, gives each of these nodes a new digest that follows
/// from its content, points the children of each at its new digest, and
/// leaves the digests of all other nodes alone.
pub proof fn update_propagates(ctx: Seq<NodeView>, start: Seq<u8>)
    requires
        find_hash(ctx, start) is Some,
        spec_chain(ctx, find_hash(ctx, start)->0, (ctx.len() - 1) as nat) is Some,
        forall|x: int| #[trigger]
            spec_chain(ctx, find_hash(ctx, start)->0, (ctx.len() - 1) as nat)->0.contains(x)
                ==> is_unique(ctx, x),
        steps_are_fresh(
            ctx,
            spec_chain(ctx, find_hash(ctx, start)->0, (ctx.len() - 1) as nat)->0,
        ),
    ensures
        spec_update_tree(ctx, start) is Ok,
        has_propagated(
            ctx,
            spec_chain(ctx, find_hash(ctx, start)->0, (ctx.len() - 1) as nat)->0,
            Set::empty(),
            spec_update_tree(ctx, start)->Ok_0,
        ),
        steps_are_new_to(
            ctx,
            ctx,
            spec_chain(ctx, find_hash(ctx, start)->0, (ctx.len() - 1) as nat)->0,
        ) ==> forall|x: int| #[trigger]
            spec_chain(ctx, find_hash(ctx, start)->0, (ctx.len() - 1) as nat)->0.contains(x)
                ==> is_new(ctx, spec_update_tree(ctx, start)->Ok_0[x].hash),
{
    lemma_find_some(ctx, start);
    lemma_chain_no_duplicates(ctx, find_hash(ctx, start)->0, (ctx.len() - 1) as nat);
    lemma_steps_propagate(
        ctx,
        ctx,
        find_hash(ctx, start)->0,
        (ctx.len() - 1) as nat,
        Set::empty(),
    );
}

/// The ancestors of the node with the digest `start` in `tree`, the node
/// first: the way that recomputing takes.
pub open spec fn ancestors(tree: Seq<NodeView>, start: Seq<u8>) -> Seq<int> {
    spec_chain(tree, find_hash(tree, start)->0, (tree.len() - 1) as nat)->0
}

/// What a change needs for its digests to propagate: the node to start from
/// is in the tree, the chain of its ancestors ends at a root, no other node
/// has the digest of one of them, and every digest computed on the way up is
/// new to the tree.
pub open spec fn propagates(tree: Seq<NodeView>, start: Seq<u8>) -> bool {
    &&& find_hash(tree, start) is Some
    &&& spec_chain(tree, find_hash(tree, start)->0, (tree.len() - 1) as nat) is Some
    &&& forall|x: int| #[trigger] ancestors(tree, start).contains(x) ==> is_unique(tree, x)
    &&& tree[ancestors(tree, start).last()].is_root()
    &&& steps_are_fresh(tree, ancestors(tree, start))
}

/// Where a change succeeds on a tree whose digests propagate, every ancestor
/// from the node where the change took place up to the root has a new digest
/// that follows from its content, the children of each name its new digest,
/// and the top hash is the new digest of the root, which is not the old one.
pub proof fn mutation_propagates(old_tree: Seq<NodeView>, tree: Seq<NodeView>, start: Seq<u8>)
    requires
        propagates(tree, start),
    ensures
        spec_mutate(old_tree, tree, start) matches Ok(m) ==> {
            &&& has_propagated(tree, ancestors(tree, start), Set::empty(), m.new_tree)
            &&& m.new_top_hash == m.new_tree[ancestors(tree, start).last()].hash
            &&& m.new_top_hash != tree[ancestors(tree, start).last()].hash
        },
{
    update_propagates(tree, start);
    lemma_find_some(tree, start);
    lemma_chain_closed(tree, find_hash(tree, start)->0, (tree.len() - 1) as nat);
    let chain = ancestors(tree, start);
    let last = chain.last();
    assert(chain[chain.len() - 1] == last);
    assert(chain.contains(last));
    match spec_mutate(old_tree, tree, start) {
        Ok(m) => {
            let out = m.new_tree;
            assert(spec_update_tree(tree, start) == Ok::<Seq<NodeView>, TreeError>(out));
            assert(out[last].is_root());
            let r = choose|r: int| is_only_root(out, r) && out[r].kind == NodeKind::Directory;
            assert(is_only_root(out, r) && out[r].kind == NodeKind::Directory);
            if r != last {
                assert(!out[last].is_root());
            }
        },
        Err(_) => {},
    }
}

/// Ancestor propagation of an insert: where the insert succeeds and the
/// digests of the context with the new node propagate from the parent, the
/// digest of every ancestor from the parent up to the root changes, and the
/// top hash is the new digest of the root, not the old one.
pub proof fn insert_changes_every_ancestor(
    ctx: Seq<NodeView>,
    parent_hash: Seq<u8>,
    metadata: Seq<u8>,
    kind: NodeKind,
    data: Option<Seq<u8>>,
)
    requires
        propagates(ctx.push(spec_candidate(parent_hash, metadata, kind, data)), parent_hash),
    ensures
        spec_insert_node(ctx, parent_hash, metadata, kind, data) matches Ok(m) ==> {
            let tree = ctx.push(spec_candidate(parent_hash, metadata, kind, data));
            let chain = ancestors(tree, parent_hash);
            &&& forall|x: int| #[trigger]
                chain.contains(x) ==> m.new_tree[x].hash != tree[x].hash && is_consistent(
                    m.new_tree,
                    x,
                )
            &&& m.new_top_hash == m.new_tree[chain.last()].hash
            &&& m.new_top_hash != tree[chain.last()].hash
        },
{
    let tree = ctx.push(spec_candidate(parent_hash, metadata, kind, data));
    mutation_propagates(ctx, tree, parent_hash);
}

/// Ancestor propagation of a delete: where the delete succeeds and the
/// digests of the context without the node propagate from the node's parent,
/// the digest of every ancestor from that parent up to the root changes, and
/// the top hash is the new digest of the root, not the old one.
pub proof fn delete_changes_every_ancestor(ctx: Seq<NodeView>, hash: Seq<u8>)
    requires
        find_hash(ctx, hash) is Some,
        propagates(
            ctx.remove(find_hash(ctx, hash)->0),
            ctx[find_hash(ctx, hash)->0].parent_hash,
        ),
    ensures
        spec_delete_node(ctx, hash) matches Ok(m) ==> {
            let tree = ctx.remove(find_hash(ctx, hash)->0);
            let chain = ancestors(tree, ctx[find_hash(ctx, hash)->0].parent_hash);
            &&& forall|x: int| #[trigger]
                chain.contains(x) ==> m.new_tree[x].hash != tree[x].hash && is_consistent(
                    m.new_tree,
                    x,
                )
            &&& m.new_top_hash == m.new_tree[chain.last()].hash
            &&& m.new_top_hash != tree[chain.last()].hash
        },
{
    let at = find_hash(ctx, hash)->0;
    mutation_propagates(ctx, ctx.remove(at), ctx[at].parent_hash);
}

/// Round trip of an insert: where the insert succeeds and the digests of
/// the context with the new node propagate from the parent, the new node is
/// the last of the new tree, has the digest that follows from the request,
/// and, under a directory, names the new digest of its parent.
pub proof fn inserted_node_is_found(
    ctx: Seq<NodeView>,
    parent_hash: Seq<u8>,
    metadata: Seq<u8>,
    kind: NodeKind,
    data: Option<Seq<u8>>,
)
    requires
        propagates(ctx.push(spec_candidate(parent_hash, metadata, kind, data)), parent_hash),
    ensures
        spec_insert_node(ctx, parent_hash, metadata, kind, data) matches Ok(m) ==> {
            let tree = ctx.push(spec_candidate(parent_hash, metadata, kind, data));
            let parent = find_hash(tree, parent_hash)->0;
            &&& m.new_tree.len() == ctx.len() + 1
            &&& m.new_tree.last().hash == spec_candidate(parent_hash, metadata, kind, data).hash
            &&& tree[parent].kind == NodeKind::Directory ==> m.new_tree.last().parent_hash
                == m.new_tree[parent].hash
        },
{
    let tree = ctx.push(spec_candidate(parent_hash, metadata, kind, data));
    let parent = find_hash(tree, parent_hash)->0;
    let fuel = (tree.len() - 1) as nat;
    let chain = ancestors(tree, parent_hash);
    let n = ctx.len() as int;
    mutation_propagates(ctx, tree, parent_hash);
    lemma_find_some(tree, parent_hash);
    lemma_chain_closed(tree, parent, fuel);
    lemma_chain_no_duplicates(tree, parent, fuel);
    assert(chain.contains(parent));
    // the new node is none of the ancestors: its parent would come twice
    assert(!chain.contains(n)) by {
        if chain.contains(n) {
            let k = choose|k: int| 0 <= k < chain.len() && chain[k] == n;
            lemma_find_distinct(tree, parent);
            assert(tree[n].parent_hash == tree[parent].hash);
            lemma_chain_step(tree, parent, fuel, k);
            assert(chain[k + 1] == parent && chain[0] == parent);
        }
    }
    match spec_insert_node(ctx, parent_hash, metadata, kind, data) {
        Ok(m) => {
            assert(m.new_tree[n].hash == tree[n].hash);
            if tree[parent].kind == NodeKind::Directory {
                assert(is_child_of(tree, parent, n));
            }
        },
        Err(_) => {},
    }
}

/// Whether a digest occurs in `ctx`, as the digest of a node or as the
/// parent that a node names.
pub open spec fn occurs(ctx: Seq<NodeView>, h: Seq<u8>) -> bool {
    exists|i: int| 0 <= i < ctx.len() && ((#[trigger] ctx[i]).hash == h || ctx[i].parent_hash == h)
}

/// After the digests have propagated along directories, and where each
/// digest computed on the way up is new to the tree as it was handed in, the
/// digests that the ancestors had are gone: no node has one of them, and
/// none names one of them as its parent.
pub proof fn old_digests_are_gone(tree: Seq<NodeView>, start: Seq<u8>)
    requires
        propagates(tree, start),
        steps_are_new_to(tree, tree, ancestors(tree, start)),
        forall|x: int| #[trigger]
            ancestors(tree, start).contains(x) ==> tree[x].kind == NodeKind::Directory,
    ensures
        spec_update_tree(tree, start) is Ok,
        forall|x: int| #[trigger]
            ancestors(tree, start).contains(x) ==> !occurs(
                spec_update_tree(tree, start)->Ok_0,
                tree[x].hash,
            ),
{
    update_propagates(tree, start);
    lemma_find_some(tree, start);
    lemma_chain_closed(tree, find_hash(tree, start)->0, (tree.len() - 1) as nat);
    let chain = ancestors(tree, start);
    let out = spec_update_tree(tree, start)->Ok_0;
    assert forall|x: int| #[trigger] chain.contains(x) implies !occurs(out, tree[x].hash) by {
        let h = tree[x].hash;
        let k = choose|k: int| 0 <= k < chain.len() && chain[k] == x;
        assert(0 <= chain[k] < tree.len());
        assert forall|i: int| 0 <= i < out.len() implies (#[trigger] out[i]).hash != h
            && out[i].parent_hash != h by {
            if chain.contains(i) {
                assert(is_new(tree, out[i].hash));
            } else {
                assert(out[i].hash == tree[i].hash);
                assert(is_unique(tree, x));
            }
            assert(has_parent_from(tree, chain, out, out[i].parent_hash, i));
            if out[i].parent_hash == tree[i].parent_hash {
                if tree[i].parent_hash == h {
                    assert(is_child_of(tree, x, i));
                    assert(out[i].parent_hash == out[x].hash);
                    assert(is_new(tree, out[x].hash));
                }
            } else {
                let y = choose|y: int| #[trigger]
                    chain.contains(y) && out[i].parent_hash == out[y].hash;
                assert(is_new(tree, out[y].hash));
            }
        }
    }
}

} // verus!
