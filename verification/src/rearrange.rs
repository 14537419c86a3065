//! The order in which a context lists its nodes does not matter: what holds
//! of two contexts that hold the same nodes at other positions.

use crate::ancestry::{find_hash, lemma_find_some, spec_chain};
use crate::mutator::{child_hashes, is_child_of, recomputed_hash, spec_step, spec_steps,
    spec_update_tree};
use crate::node::NodeView;
use crate::propagation::{is_unique, lemma_find_distinct};
use vstd::prelude::*;

verus! {

/// No two nodes of `ctx` have the same digest.
pub open spec fn has_distinct_digests(ctx: Seq<NodeView>) -> bool {
    forall|i: int| 0 <= i < ctx.len() ==> #[trigger] is_unique(ctx, i)
}

/// `b` holds the nodes of `a` at other positions: the node at `i` of `a`
/// stands at `to(i)` of `b`, and the node at `j` of `b` at `back(j)` of `a`.
pub open spec fn is_rearranged(
    a: Seq<NodeView>,
    b: Seq<NodeView>,
    to: spec_fn(int) -> int,
    back: spec_fn(int) -> int,
) -> bool {
    &&& a.len() == b.len()
    &&& forall|i: int|
        0 <= i < a.len() ==> 0 <= #[trigger] to(i) < b.len() && b[to(i)] == a[i] && back(to(i))
            == i
    &&& forall|j: int|
        0 <= j < b.len() ==> 0 <= #[trigger] back(j) < a.len() && a[back(j)] == b[j] && to(
            back(j),
        ) == j
}

/// A route through `a` as it runs through `b`.
pub open spec fn moved(route: Seq<int>, to: spec_fn(int) -> int) -> Seq<int> {
    Seq::new(route.len(), |k: int| to(route[k]))
}

/// Two contexts hold the same nodes.
pub open spec fn same_nodes(a: Seq<NodeView>, b: Seq<NodeView>) -> bool {
    forall|n: NodeView| a.contains(n) <==> b.contains(n)
}

/// Contexts that hold the same nodes at other positions hold the same nodes.
pub proof fn lemma_rearranged_same_nodes(
    a: Seq<NodeView>,
    b: Seq<NodeView>,
    to: spec_fn(int) -> int,
    back: spec_fn(int) -> int,
)
    requires
        is_rearranged(a, b, to, back),
    ensures
        same_nodes(a, b),
{
    assert forall|n: NodeView| a.contains(n) <==> b.contains(n) by {
        if a.contains(n) {
            let i = choose|i: int| 0 <= i < a.len() && a[i] == n;
            assert(b[to(i)] == n);
        }
        if b.contains(n) {
            let j = choose|j: int| 0 <= j < b.len() && b[j] == n;
            assert(a[back(j)] == n);
        }
    }
}

/// A digest has the same children in both.
pub proof fn lemma_rearranged_children(
    a: Seq<NodeView>,
    b: Seq<NodeView>,
    to: spec_fn(int) -> int,
    back: spec_fn(int) -> int,
    parent: Seq<u8>,
)
    requires
        is_rearranged(a, b, to, back),
    ensures
        child_hashes(a, parent) == child_hashes(b, parent),
{
    assert forall|x: Seq<u8>| child_hashes(a, parent).contains(x) == child_hashes(
        b,
        parent,
    ).contains(x) by {
        if child_hashes(a, parent).contains(x) {
            let i = choose|i: int|
                0 <= i < a.len() && (#[trigger] a[i]).parent_hash == parent && a[i].hash == x;
            let j = to(i);
            assert(b[j].parent_hash == parent && b[j].hash == x);
        }
        if child_hashes(b, parent).contains(x) {
            let j = choose|j: int|
                0 <= j < b.len() && (#[trigger] b[j]).parent_hash == parent && b[j].hash == x;
            let i = back(j);
            assert(a[i].parent_hash == parent && a[i].hash == x);
        }
    }
    assert(child_hashes(a, parent) =~= child_hashes(b, parent));
}

/// A step at a node of `a` and the step at the same node of `b` leave the
/// same nodes, at the positions they had.
pub proof fn lemma_rearranged_step(
    a: Seq<NodeView>,
    b: Seq<NodeView>,
    to: spec_fn(int) -> int,
    back: spec_fn(int) -> int,
    c: int,
)
    requires
        is_rearranged(a, b, to, back),
        0 <= c < a.len(),
    ensures
        is_rearranged(spec_step(a, c), spec_step(b, to(c)), to, back),
{
    lemma_rearranged_children(a, b, to, back, a[c].hash);
    assert(recomputed_hash(a, c) == recomputed_hash(b, to(c)));
    let nh = recomputed_hash(a, c);
    let a1 = spec_step(a, c);
    let b1 = spec_step(b, to(c));
    assert forall|i: int| 0 <= i < a1.len() implies 0 <= #[trigger] to(i) < b1.len() && b1[to(
        i,
    )] == a1[i] && back(to(i)) == i by {
        assert(b[to(i)] == a[i]);
        assert(is_child_of(b, to(c), to(i)) == is_child_of(a, c, i));
        assert((to(i) == to(c)) == (i == c)) by {
            assert(back(to(i)) == i && back(to(c)) == c);
        }
    }
    assert forall|j: int| 0 <= j < b1.len() implies 0 <= #[trigger] back(j) < a1.len()
        && a1[back(j)] == b1[j] && to(back(j)) == j by {
        let i = back(j);
        assert(to(i) == j);
        assert(b1[to(i)] == a1[i]);
    }
}

/// Steps along a route through `a` and along the same route through `b`
/// leave the same nodes, at the positions they had.
pub proof fn lemma_rearranged_steps(
    a: Seq<NodeView>,
    b: Seq<NodeView>,
    to: spec_fn(int) -> int,
    back: spec_fn(int) -> int,
    route: Seq<int>,
)
    requires
        is_rearranged(a, b, to, back),
        forall|k: int| 0 <= k < route.len() ==> 0 <= #[trigger] route[k] < a.len(),
    ensures
        is_rearranged(spec_steps(a, route), spec_steps(b, moved(route, to)), to, back),
    decreases route.len(),
{
    if route.len() > 0 {
        lemma_rearranged_step(a, b, to, back, route[0]);
        let rest = route.drop_first();
        assert(moved(route, to)[0] == to(route[0]));
        assert(moved(route, to).drop_first() =~= moved(rest, to));
        assert forall|k: int| 0 <= k < rest.len() implies 0 <= #[trigger] rest[k] < spec_step(
            a,
            route[0],
        ).len() by {
            assert(rest[k] == route[k + 1]);
        }
        lemma_rearranged_steps(spec_step(a, route[0]), spec_step(b, to(route[0])), to, back, rest);
    } else {
        assert(moved(route, to) =~= route);
    }
}

/// Where digests are distinct, looking a digest up in `b` gives the node
/// that looking it up in `a` gives.
pub proof fn lemma_rearranged_find(
    a: Seq<NodeView>,
    b: Seq<NodeView>,
    to: spec_fn(int) -> int,
    back: spec_fn(int) -> int,
    h: Seq<u8>,
)
    requires
        is_rearranged(a, b, to, back),
        has_distinct_digests(a),
        has_distinct_digests(b),
    ensures
        find_hash(b, h) == match find_hash(a, h) {
            Some(i) => Some(to(i)),
            None => None,
        },
{
    match find_hash(a, h) {
        Some(i) => {
            lemma_find_some(a, h);
            assert(b[to(i)] == a[i]);
            assert(is_unique(b, to(i)));
            lemma_find_distinct(b, to(i));
        },
        None => {
            if find_hash(b, h) is Some {
                lemma_find_some(b, h);
                let j = find_hash(b, h)->0;
                assert(a[back(j)] == b[j]);
                assert(is_unique(a, back(j)));
                lemma_find_distinct(a, back(j));
            }
        },
    }
}

/// Where digests are distinct, the chain of ancestors of a node runs
/// through the same nodes in both.
pub proof fn lemma_rearranged_chain(
    a: Seq<NodeView>,
    b: Seq<NodeView>,
    to: spec_fn(int) -> int,
    back: spec_fn(int) -> int,
    c: int,
    fuel: nat,
)
    requires
        is_rearranged(a, b, to, back),
        has_distinct_digests(a),
        has_distinct_digests(b),
        0 <= c < a.len(),
    ensures
        spec_chain(b, to(c), fuel) == match spec_chain(a, c, fuel) {
            Some(route) => Some(moved(route, to)),
            None => None,
        },
    decreases fuel,
{
    assert(b[to(c)] == a[c]);
    lemma_rearranged_find(a, b, to, back, a[c].parent_hash);
    match find_hash(a, a[c].parent_hash) {
        None => {
            assert(moved(seq![c], to) =~= seq![to(c)]);
        },
        Some(p) => {
            lemma_find_some(a, a[c].parent_hash);
            if fuel > 0 {
                lemma_rearranged_chain(a, b, to, back, p, (fuel - 1) as nat);
                match spec_chain(a, p, (fuel - 1) as nat) {
                    Some(rest) => {
                        assert(moved(seq![c] + rest, to) =~= seq![to(c)] + moved(rest, to));
                    },
                    None => {},
                }
            }
        },
    }
}

/// Recomputing does not depend on the order of the context: two contexts of
/// equal length that hold the same nodes, each with digests that no two of
/// its nodes share, both fail or both succeed, and where they succeed they
/// hold the same nodes afterwards.
pub proof fn update_ignores_order(a: Seq<NodeView>, b: Seq<NodeView>, start: Seq<u8>)
    requires
        a.len() == b.len(),
        same_nodes(a, b),
        has_distinct_digests(a),
        has_distinct_digests(b),
    ensures
        match (spec_update_tree(a, start), spec_update_tree(b, start)) {
            (Ok(x), Ok(y)) => same_nodes(x, y),
            (Err(e), Err(f)) => e == f,
            _ => false,
        },
{
    let to = |i: int| find_hash(b, a[i].hash)->0;
    let back = |j: int| find_hash(a, b[j].hash)->0;
    assert forall|i: int| 0 <= i < a.len() implies 0 <= #[trigger] to(i) < b.len() && b[to(i)]
        == a[i] && back(to(i)) == i by {
        assert(a.contains(a[i]));
        assert(b.contains(a[i]));
        let j = choose|j: int| 0 <= j < b.len() && b[j] == a[i];
        assert(is_unique(b, j));
        lemma_find_distinct(b, j);
        assert(is_unique(a, i));
        lemma_find_distinct(a, i);
    }
    assert forall|j: int| 0 <= j < b.len() implies 0 <= #[trigger] back(j) < a.len() && a[back(
        j,
    )] == b[j] && to(back(j)) == j by {
        assert(b.contains(b[j]));
        assert(a.contains(b[j]));
        let i = choose|i: int| 0 <= i < a.len() && a[i] == b[j];
        assert(is_unique(a, i));
        lemma_find_distinct(a, i);
        assert(is_unique(b, j));
        lemma_find_distinct(b, j);
    }
    assert(is_rearranged(a, b, to, back));
    lemma_rearranged_find(a, b, to, back, start);
    match find_hash(a, start) {
        None => {},
        Some(c) => {
            lemma_find_some(a, start);
            let fuel = (a.len() - 1) as nat;
            lemma_rearranged_chain(a, b, to, back, c, fuel);
            match spec_chain(a, c, fuel) {
                None => {},
                Some(route) => {
                    crate::ancestry::lemma_chain_closed(a, c, fuel);
                    lemma_rearranged_steps(a, b, to, back, route);
                    lemma_rearranged_same_nodes(
                        spec_steps(a, route),
                        spec_steps(b, moved(route, to)),
                        to,
                        back,
                    );
                },
            }
        },
    }
}

} // verus!
