//! A set of digests laid out in strictly ascending order.

use crate::bytes::{compare, copy_bytes, lemma_ascending_unique, lemma_lex_transitive, lex_lt,
    strictly_ascending, Rank};
use crate::digest::views;
use vstd::prelude::*;

verus! {

/// Whether `s` is the strictly ascending layout of `set`.
pub open spec fn lays_out(s: Seq<Seq<u8>>, set: Set<Seq<u8>>) -> bool {
    strictly_ascending(s) && s.to_set() == set
}

/// The members of a finite set of byte strings in strictly ascending order.
pub open spec fn ascending(set: Set<Seq<u8>>) -> Seq<Seq<u8>> {
    choose|s: Seq<Seq<u8>>| lays_out(s, set)
}

/// A set has at most one strictly ascending layout, which `ascending` names.
pub proof fn lemma_ascending_is(s: Seq<Seq<u8>>, set: Set<Seq<u8>>)
    requires
        lays_out(s, set),
    ensures
        ascending(set) == s,
{
    let t: Seq<Seq<u8>> = ascending(set);
    lemma_ascending_unique(s, t);
}

/// The ascending layout of the elements of a sequence depends on which
/// elements occur in it, not on where or how often.
pub proof fn ascending_ignores_order(a: Seq<Seq<u8>>, b: Seq<Seq<u8>>)
    requires
        forall|x: Seq<u8>| a.contains(x) <==> b.contains(x),
    ensures
        ascending(a.to_set()) == ascending(b.to_set()),
{
    assert(a.to_set() =~= b.to_set());
}

/// Puts `x` into the strictly ascending `sorted` at its place, unless it is
/// already there.
pub fn insert_ascending(sorted: &mut Vec<Vec<u8>>, x: &[u8])
    requires
        strictly_ascending(views(old(sorted)@)),
    ensures
        strictly_ascending(views(final(sorted)@)),
        views(final(sorted)@).to_set() == views(old(sorted)@).to_set().insert(x@),
{
    let ghost before = views(sorted@);
    let mut i: usize = 0;
    let mut placed: bool = false;
    while i < sorted.len() && !placed
        invariant
            i <= sorted.len(),
            sorted@ == old(sorted)@,
            before == views(sorted@),
            strictly_ascending(before),
            forall|k: int| 0 <= k < i ==> lex_lt(#[trigger] before[k], x@),
            placed ==> i < sorted.len() && lex_lt(x@, before[i as int]),
        decreases sorted.len() - i + (if placed { 0int } else { 1int }),
    {
        match compare(sorted[i].as_slice(), x) {
            Rank::Before => {
                assert(before[i as int] == sorted@[i as int]@);
                i += 1;
            },
            Rank::Same => {
                proof {
                    assert(before[i as int] == x@);
                    assert(before.contains(x@));
                    assert(before.to_set().insert(x@) =~= before.to_set());
                }
                return ;
            },
            Rank::After => {
                assert(before[i as int] == sorted@[i as int]@);
                placed = true;
            },
        }
    }
    let ghost at = i as int;
    assert(at < before.len() ==> lex_lt(x@, before[at]));
    sorted.insert(i, copy_bytes(x));
    proof {
        let after = views(sorted@);
        assert(after =~= before.insert(at, x@));
        assert forall|p: int, q: int| 0 <= p < q < after.len() implies lex_lt(
            #[trigger] after[p],
            #[trigger] after[q],
        ) by {
            if q < at {
                assert(lex_lt(before[p], before[q]));
            } else if q == at {
                assert(lex_lt(before[p], x@));
            } else if p == at {
                if q - 1 > at {
                    assert(lex_lt(before[at], before[q - 1]));
                    lemma_lex_transitive(x@, before[at], before[q - 1]);
                }
            } else if p < at {
                assert(lex_lt(before[p], x@));
                if q - 1 > at {
                    assert(lex_lt(before[at], before[q - 1]));
                    lemma_lex_transitive(x@, before[at], before[q - 1]);
                }
                lemma_lex_transitive(before[p], x@, before[q - 1]);
            } else {
                assert(lex_lt(before[p - 1], before[q - 1]));
            }
        }
        assert forall|y: Seq<u8>| after.to_set().contains(y) == before.to_set().insert(
            x@,
        ).contains(y) by {
            if after.contains(y) {
                let k: int = choose|k: int| 0 <= k < after.len() && after[k] == y;
                if k < at {
                    assert(before[k] == y);
                } else if k > at {
                    assert(before[k - 1] == y);
                }
            }
            if before.contains(y) {
                let k: int = choose|k: int| 0 <= k < before.len() && before[k] == y;
                if k < at {
                    assert(after[k] == y);
                } else {
                    assert(after[k + 1] == y);
                }
            }
            if y == x@ {
                assert(after[at] == y);
            }
        }
        assert(after.to_set() =~= before.to_set().insert(x@));
    }
}

} // verus!
