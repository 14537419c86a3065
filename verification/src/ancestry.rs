//! Looking a node up by its digest, and the chain of ancestors that leads
//! from a node up to the root.

use crate::bytes::bytes_eq;
use crate::node::{node_views, Node, NodeView};
use vstd::prelude::*;

verus! {

/// `i` is the first position of `ctx` whose node has the digest `h`.
pub open spec fn is_first(ctx: Seq<NodeView>, h: Seq<u8>, i: int) -> bool {
    &&& 0 <= i < ctx.len()
    &&& ctx[i].hash == h
    &&& forall|j: int| 0 <= j < i ==> (#[trigger] ctx[j]).hash != h
}

/// The first position of `ctx` whose node has the digest `h`, if any.
pub open spec fn find_hash(ctx: Seq<NodeView>, h: Seq<u8>) -> Option<int> {
    if exists|i: int| is_first(ctx, h, i) {
        Some(choose|i: int| is_first(ctx, h, i))
    } else {
        None
    }
}

/// A first position is the one that `find_hash` gives.
pub proof fn lemma_find_is(ctx: Seq<NodeView>, h: Seq<u8>, i: int)
    requires
        is_first(ctx, h, i),
    ensures
        find_hash(ctx, h) == Some(i),
{
    let k: int = choose|k: int| is_first(ctx, h, k);
    if k < i {
        assert(ctx[k].hash != h);
    } else if i < k {
        assert(ctx[i].hash != h);
    }
}

/// What `find_hash` gives is a first position.
pub proof fn lemma_find_some(ctx: Seq<NodeView>, h: Seq<u8>)
    requires
        find_hash(ctx, h) is Some,
    ensures
        is_first(ctx, h, find_hash(ctx, h)->0),
{
}

/// A digest that some node has is found.
pub proof fn lemma_found(ctx: Seq<NodeView>, h: Seq<u8>, i: int)
    requires
        0 <= i < ctx.len(),
        ctx[i].hash == h,
    ensures
        find_hash(ctx, h) is Some,
    decreases i,
{
    if exists|j: int| 0 <= j < i && (#[trigger] ctx[j]).hash == h {
        let j = choose|j: int| 0 <= j < i && (#[trigger] ctx[j]).hash == h;
        lemma_found(ctx, h, j);
    } else {
        assert(is_first(ctx, h, i));
        lemma_find_is(ctx, h, i);
    }
}

/// The first position in `ctx` of a node with the digest `h`.
pub fn find(ctx: &Vec<Node>, h: &[u8]) -> (at: Option<usize>)
    ensures
        match at {
            Some(i) => find_hash(node_views(ctx@), h@) == Some(i as int) && i < ctx.len(),
            None => find_hash(node_views(ctx@), h@) is None,
        },
{
    let ghost all = node_views(ctx@);
    let mut i: usize = 0;
    while i < ctx.len()
        invariant
            i <= ctx.len(),
            all == node_views(ctx@),
            forall|j: int| 0 <= j < i ==> (#[trigger] all[j]).hash != h@,
        decreases ctx.len() - i,
    {
        if bytes_eq(ctx[i].hash.as_slice(), h) {
            proof {
                assert(all[i as int] == ctx@[i as int]@);
                lemma_find_is(all, h@, i as int);
            }
            return Some(i);
        }
        assert(all[i as int] == ctx@[i as int]@);
        i += 1;
    }
    proof {
        if find_hash(all, h@) is Some {
            lemma_find_some(all, h@);
        }
    }
    None
}

/// The positions in `store` of the node at `at` and of its ancestors, the
/// node first and the root last. `fuel` bounds the ancestors: a chain that
/// is longer does not end at a root.
pub open spec fn spec_chain(store: Seq<NodeView>, at: int, fuel: nat) -> Option<Seq<int>>
    decreases fuel,
{
    match find_hash(store, store[at].parent_hash) {
        None => Some(seq![at]),
        Some(p) => if fuel == 0 {
            None
        } else {
            match spec_chain(store, p, (fuel - 1) as nat) {
                None => None,
                Some(rest) => Some(seq![at] + rest),
            }
        },
    }
}

/// What a chain of ancestors holds: it starts at the node, every position of
/// it is one of the context, and the parent of each of its nodes is on it,
/// unless the context has none.
pub proof fn lemma_chain_closed(ctx: Seq<NodeView>, c: int, fuel: nat)
    requires
        0 <= c < ctx.len(),
        spec_chain(ctx, c, fuel) is Some,
    ensures
        ({
            let chain = spec_chain(ctx, c, fuel)->0;
            &&& chain.len() >= 1
            &&& chain[0] == c
            &&& forall|k: int| 0 <= k < chain.len() ==> 0 <= #[trigger] chain[k] < ctx.len()
            &&& forall|x: int| #[trigger]
                chain.contains(x) ==> match find_hash(ctx, ctx[x].parent_hash) {
                    Some(y) => chain.contains(y),
                    None => chain.last() == x,
                }
            &&& find_hash(ctx, ctx[chain.last()].parent_hash) is None
        }),
    decreases fuel,
{
    let chain = spec_chain(ctx, c, fuel)->0;
    match find_hash(ctx, ctx[c].parent_hash) {
        None => {
            assert(chain =~= seq![c]);
            assert forall|x: int| #[trigger] chain.contains(x) implies match find_hash(
                ctx,
                ctx[x].parent_hash,
            ) {
                Some(y) => chain.contains(y),
                None => chain.last() == x,
            } by {
                assert(x == c);
            }
        },
        Some(p) => {
            lemma_find_some(ctx, ctx[c].parent_hash);
            lemma_chain_closed(ctx, p, (fuel - 1) as nat);
            let rest = spec_chain(ctx, p, (fuel - 1) as nat)->0;
            assert(chain =~= seq![c] + rest);
            assert forall|k: int| 0 <= k < chain.len() implies 0 <= #[trigger] chain[k]
                < ctx.len() by {
                if k > 0 {
                    assert(chain[k] == rest[k - 1]);
                }
            }
            assert(chain[1] == rest[0]);
            assert(chain.contains(p));
            assert forall|x: int| #[trigger] chain.contains(x) implies match find_hash(
                ctx,
                ctx[x].parent_hash,
            ) {
                Some(y) => chain.contains(y),
                None => chain.last() == x,
            } by {
                let k = choose|k: int| 0 <= k < chain.len() && chain[k] == x;
                if k > 0 {
                    assert(rest[k - 1] == x);
                    assert(rest.contains(x));
                    match find_hash(ctx, ctx[x].parent_hash) {
                        Some(y) => {
                            assert(rest.contains(y));
                            let m = choose|m: int| 0 <= m < rest.len() && rest[m] == y;
                            assert(chain[m + 1] == y);
                        },
                        None => {},
                    }
                }
            }
        },
    }
}

/// A chain of ancestors that ends does so whatever more steps it is allowed.
pub proof fn lemma_chain_fuel(ctx: Seq<NodeView>, c: int, less: nat, more: nat)
    requires
        spec_chain(ctx, c, less) is Some,
        less <= more,
    ensures
        spec_chain(ctx, c, more) == spec_chain(ctx, c, less),
    decreases less,
{
    match find_hash(ctx, ctx[c].parent_hash) {
        None => {},
        Some(p) => {
            lemma_chain_fuel(ctx, p, (less - 1) as nat, (more - 1) as nat);
        },
    }
}

/// What follows a node on a chain of ancestors is the chain of that node.
pub proof fn lemma_chain_suffix(ctx: Seq<NodeView>, c: int, fuel: nat, m: int)
    requires
        0 <= c < ctx.len(),
        spec_chain(ctx, c, fuel) is Some,
        0 <= m < spec_chain(ctx, c, fuel)->0.len(),
    ensures
        m <= fuel,
        spec_chain(ctx, spec_chain(ctx, c, fuel)->0[m], (fuel - m) as nat) == Some(
            spec_chain(ctx, c, fuel)->0.skip(m),
        ),
    decreases fuel,
{
    let chain = spec_chain(ctx, c, fuel)->0;
    lemma_chain_closed(ctx, c, fuel);
    if m == 0 {
        assert(chain.skip(0) =~= chain);
    } else {
        match find_hash(ctx, ctx[c].parent_hash) {
            None => {
                assert(chain =~= seq![c]);
            },
            Some(p) => {
                lemma_find_some(ctx, ctx[c].parent_hash);
                let rest = spec_chain(ctx, p, (fuel - 1) as nat)->0;
                assert(chain =~= seq![c] + rest);
                lemma_chain_suffix(ctx, p, (fuel - 1) as nat, m - 1);
                assert(chain[m] == rest[m - 1]);
                assert(chain.skip(m) =~= rest.skip(m - 1));
            },
        }
    }
}

/// No node comes twice on a chain of ancestors: from the second time on the
/// chain would go round and never end.
pub proof fn lemma_chain_no_duplicates(ctx: Seq<NodeView>, c: int, fuel: nat)
    requires
        0 <= c < ctx.len(),
        spec_chain(ctx, c, fuel) is Some,
    ensures
        spec_chain(ctx, c, fuel)->0.no_duplicates(),
{
    let chain = spec_chain(ctx, c, fuel)->0;
    assert forall|i: int, j: int|
        0 <= i < chain.len() && 0 <= j < chain.len() && i != j implies chain[i] != chain[j] by {
        if chain[i] == chain[j] {
            let (a, b) = if i < j {
                (i, j)
            } else {
                (j, i)
            };
            lemma_chain_suffix(ctx, c, fuel, a);
            lemma_chain_suffix(ctx, c, fuel, b);
            lemma_chain_fuel(ctx, chain[b], (fuel - b) as nat, (fuel - a) as nat);
            assert(chain.skip(a).len() != chain.skip(b).len());
        }
    }
}

/// Each node of a chain of ancestors but the last is followed by its parent.
pub proof fn lemma_chain_step(ctx: Seq<NodeView>, c: int, fuel: nat, k: int)
    requires
        0 <= c < ctx.len(),
        spec_chain(ctx, c, fuel) is Some,
        0 <= k < spec_chain(ctx, c, fuel)->0.len(),
        find_hash(ctx, ctx[spec_chain(ctx, c, fuel)->0[k]].parent_hash) is Some,
    ensures
        k + 1 < spec_chain(ctx, c, fuel)->0.len(),
        spec_chain(ctx, c, fuel)->0[k + 1] == find_hash(
            ctx,
            ctx[spec_chain(ctx, c, fuel)->0[k]].parent_hash,
        )->0,
    decreases fuel,
{
    let chain = spec_chain(ctx, c, fuel)->0;
    lemma_chain_closed(ctx, c, fuel);
    match find_hash(ctx, ctx[c].parent_hash) {
        None => {
            assert(chain =~= seq![c]);
        },
        Some(p) => {
            lemma_find_some(ctx, ctx[c].parent_hash);
            let rest = spec_chain(ctx, p, (fuel - 1) as nat)->0;
            assert(chain =~= seq![c] + rest);
            lemma_chain_closed(ctx, p, (fuel - 1) as nat);
            if k == 0 {
                assert(chain[1] == rest[0]);
            } else {
                assert(chain[k] == rest[k - 1]);
                lemma_chain_step(ctx, p, (fuel - 1) as nat, k - 1);
                assert(chain[k + 1] == rest[k]);
            }
        },
    }
}

/// The positions of a chain as mathematical integers.
pub open spec fn positions(chain: Seq<usize>) -> Seq<int> {
    Seq::new(chain.len(), |k: int| chain[k] as int)
}

/// The positions in `store` of the node at `at` and of its ancestors.
pub fn chain_of(store: &Vec<Node>, at: usize) -> (chain: Option<Vec<usize>>)
    requires
        at < store.len(),
    ensures
        match chain {
            Some(c) => spec_chain(node_views(store@), at as int, (store.len() - 1) as nat) == Some(
                positions(c@),
            ) && forall|k: int| 0 <= k < c@.len() ==> #[trigger] c@[k] < store.len(),
            None => spec_chain(node_views(store@), at as int, (store.len() - 1) as nat) is None,
        },
{
    let ghost all = node_views(store@);
    let ghost goal = spec_chain(all, at as int, (store.len() - 1) as nat);
    let mut chain: Vec<usize> = Vec::new();
    let mut cur: usize = at;
    let mut fuel: usize = store.len() - 1;
    assert(positions(chain@) + seq![cur as int] =~= seq![cur as int]);
    loop
        invariant
            cur < store.len(),
            all == node_views(store@),
            goal == spec_chain(all, at as int, (store.len() - 1) as nat),
            forall|k: int| 0 <= k < chain@.len() ==> #[trigger] chain@[k] < store.len(),
            goal == match spec_chain(all, cur as int, fuel as nat) {
                None => None,
                Some(rest) => Some(positions(chain@) + rest),
            },
        decreases fuel,
    {
        assert(all[cur as int] == store@[cur as int]@);
        let next = find(store, store[cur].parent_hash.as_slice());
        let ghost before = positions(chain@);
        chain.push(cur);
        assert(positions(chain@) =~= before + seq![cur as int]);
        match next {
            None => {
                return Some(chain);
            },
            Some(p) => {
                if fuel == 0 {
                    return None;
                }
                proof {
                    match spec_chain(all, p as int, (fuel - 1) as nat) {
                        Some(rest) => {
                            assert(before + (seq![cur as int] + rest) =~= positions(chain@) + rest);
                        },
                        None => {},
                    }
                }
                fuel -= 1;
                cur = p;
            },
        }
    }
}

/// Each node of a chain of ancestors but the first has the digest that the
/// node before it names as its parent.
pub proof fn lemma_chain_link(ctx: Seq<NodeView>, c: int, fuel: nat, k: int)
    requires
        0 <= c < ctx.len(),
        spec_chain(ctx, c, fuel) is Some,
        0 < k < spec_chain(ctx, c, fuel)->0.len(),
    ensures
        ctx[spec_chain(ctx, c, fuel)->0[k]].hash == ctx[spec_chain(
            ctx,
            c,
            fuel,
        )->0[k - 1]].parent_hash,
        0 <= spec_chain(ctx, c, fuel)->0[k - 1] < ctx.len(),
    decreases fuel,
{
    let chain = spec_chain(ctx, c, fuel)->0;
    lemma_chain_closed(ctx, c, fuel);
    match find_hash(ctx, ctx[c].parent_hash) {
        None => {
            assert(chain =~= seq![c]);
        },
        Some(p) => {
            lemma_find_some(ctx, ctx[c].parent_hash);
            let rest = spec_chain(ctx, p, (fuel - 1) as nat)->0;
            assert(chain =~= seq![c] + rest);
            lemma_chain_closed(ctx, p, (fuel - 1) as nat);
            if k == 1 {
                assert(chain[1] == rest[0]);
            } else {
                assert(chain[k] == rest[k - 1]);
                assert(chain[k - 1] == rest[k - 2]);
                lemma_chain_link(ctx, p, (fuel - 1) as nat, k - 1);
            }
        },
    }
}

/// A chain of ancestors holds no more nodes than the context.
pub proof fn lemma_chain_fits(ctx: Seq<NodeView>, c: int, fuel: nat)
    requires
        0 <= c < ctx.len(),
        spec_chain(ctx, c, fuel) is Some,
    ensures
        spec_chain(ctx, c, fuel)->0.len() <= ctx.len(),
{
    let chain = spec_chain(ctx, c, fuel)->0;
    lemma_chain_closed(ctx, c, fuel);
    lemma_chain_no_duplicates(ctx, c, fuel);
    chain.unique_seq_to_set();
    let all = vstd::set_lib::set_int_range(0, ctx.len() as int);
    vstd::set_lib::lemma_int_range(0, ctx.len() as int);
    assert forall|x: int| chain.to_set().contains(x) implies all.contains(x) by {
        assert(chain.contains(x));
        let k = choose|k: int| 0 <= k < chain.len() && chain[k] == x;
        assert(0 <= chain[k] < ctx.len());
    }
    vstd::set_lib::lemma_len_subset(chain.to_set(), all);
}

/// A chain of ancestors needs one step less than it has nodes.
pub proof fn lemma_chain_tight(ctx: Seq<NodeView>, c: int, fuel: nat)
    requires
        spec_chain(ctx, c, fuel) is Some,
    ensures
        spec_chain(ctx, c, fuel)->0.len() >= 1,
        spec_chain(ctx, c, (spec_chain(ctx, c, fuel)->0.len() - 1) as nat) == spec_chain(
            ctx,
            c,
            fuel,
        ),
    decreases fuel,
{
    match find_hash(ctx, ctx[c].parent_hash) {
        None => {},
        Some(p) => {
            lemma_chain_tight(ctx, p, (fuel - 1) as nat);
            let rest = spec_chain(ctx, p, (fuel - 1) as nat)->0;
            assert((seq![c] + rest).len() == rest.len() + 1);
        },
    }
}

/// A chain of ancestors that ends at all ends within as many steps as the
/// context has nodes but one.
pub proof fn lemma_chain_ends_in_time(ctx: Seq<NodeView>, c: int, fuel: nat)
    requires
        0 <= c < ctx.len(),
        spec_chain(ctx, c, fuel) is Some,
    ensures
        spec_chain(ctx, c, (ctx.len() - 1) as nat) == spec_chain(ctx, c, fuel),
{
    lemma_chain_fits(ctx, c, fuel);
    lemma_chain_tight(ctx, c, fuel);
    let tight = (spec_chain(ctx, c, fuel)->0.len() - 1) as nat;
    lemma_chain_fuel(ctx, c, tight, (ctx.len() - 1) as nat);
}

} // verus!
