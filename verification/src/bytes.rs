//! Byte strings: copying, equality and the byte-lexicographic order.

use vstd::prelude::*;

verus! {

/// How one byte string stands to another in the byte-lexicographic order.
#[derive(Clone, Copy, Debug, PartialEq, Eq, Structural)]
pub enum Rank {
    Before,
    Same,
    After,
}

/// `a` comes strictly before `b`: at the first position where they differ
/// `a` has the smaller byte, or `a` is a proper prefix of `b`.
pub open spec fn lex_lt(a: Seq<u8>, b: Seq<u8>) -> bool
    decreases a.len(),
{
    if b.len() == 0 {
        false
    } else if a.len() == 0 {
        true
    } else if a[0] != b[0] {
        a[0] < b[0]
    } else {
        lex_lt(a.drop_first(), b.drop_first())
    }
}

/// Every element stands strictly before every later one.
pub open spec fn strictly_ascending(s: Seq<Seq<u8>>) -> bool {
    forall|i: int, j: int| 0 <= i < j < s.len() ==> lex_lt(#[trigger] s[i], #[trigger] s[j])
}

/// No byte string comes before itself.
pub proof fn lemma_lex_irreflexive(a: Seq<u8>)
    ensures
        !lex_lt(a, a),
    decreases a.len(),
{
    if a.len() > 0 {
        lemma_lex_irreflexive(a.drop_first());
    }
}

/// The order is transitive.
pub proof fn lemma_lex_transitive(a: Seq<u8>, b: Seq<u8>, c: Seq<u8>)
    requires
        lex_lt(a, b),
        lex_lt(b, c),
    ensures
        lex_lt(a, c),
    decreases a.len(),
{
    if a.len() > 0 && a[0] == b[0] && b[0] == c[0] {
        lemma_lex_transitive(a.drop_first(), b.drop_first(), c.drop_first());
    }
}

/// Two different byte strings are ordered one way or the other.
pub proof fn lemma_lex_total(a: Seq<u8>, b: Seq<u8>)
    ensures
        a == b || lex_lt(a, b) || lex_lt(b, a),
    decreases a.len(),
{
    if a.len() == 0 || b.len() == 0 {
        if a.len() == 0 && b.len() == 0 {
            assert(a =~= b);
        }
    } else if a[0] == b[0] {
        lemma_lex_total(a.drop_first(), b.drop_first());
        if a.drop_first() == b.drop_first() {
            assert(a =~= seq![a[0]] + a.drop_first());
            assert(b =~= seq![b[0]] + b.drop_first());
        }
    }
}

/// Never both ways.
pub proof fn lemma_lex_asymmetric(a: Seq<u8>, b: Seq<u8>)
    requires
        lex_lt(a, b),
    ensures
        !lex_lt(b, a),
        a != b,
{
    lemma_lex_irreflexive(a);
    if lex_lt(b, a) {
        lemma_lex_transitive(a, b, a);
    }
}

/// A strictly ascending sequence is fixed by the set of its elements.
pub proof fn lemma_ascending_unique(s: Seq<Seq<u8>>, t: Seq<Seq<u8>>)
    requires
        strictly_ascending(s),
        strictly_ascending(t),
        s.to_set() == t.to_set(),
    ensures
        s == t,
    decreases s.len(),
{
    if s.len() == 0 {
        if t.len() > 0 {
            assert(t.to_set().contains(t[0]));
            assert(s.contains(t[0]));
        }
        assert(s =~= t);
    } else {
        assert(s.to_set().contains(s[0]));
        assert(t.contains(s[0]));
        let m: Seq<u8> = s.last();
        let n: Seq<u8> = t.last();
        assert(s.to_set().contains(m));
        assert(t.to_set().contains(n));
        assert(t.contains(m));
        assert(s.contains(n));
        let jm: int = choose|j: int| 0 <= j < t.len() && t[j] == m;
        let jn: int = choose|j: int| 0 <= j < s.len() && s[j] == n;
        if m != n {
            assert(lex_lt(t[jm], t[t.len() - 1]));
            assert(lex_lt(s[jn], s[s.len() - 1]));
            lemma_lex_asymmetric(m, n);
        }
        let s0: Seq<Seq<u8>> = s.drop_last();
        let t0: Seq<Seq<u8>> = t.drop_last();
        assert forall|x: Seq<u8>| s0.to_set().contains(x) == t0.to_set().contains(x) by {
            lemma_drop_last_member(s, x);
            lemma_drop_last_member(t, x);
            assert(s.to_set().contains(x) == t.to_set().contains(x));
        }
        assert(s0.to_set() =~= t0.to_set());
        lemma_ascending_unique(s0, t0);
        assert(s =~= s0.push(m));
        assert(t =~= t0.push(n));
    }
}

/// In a strictly ascending sequence, the elements before the last are those
/// of the whole sequence but the last.
proof fn lemma_drop_last_member(s: Seq<Seq<u8>>, x: Seq<u8>)
    requires
        strictly_ascending(s),
        s.len() > 0,
    ensures
        s.drop_last().to_set().contains(x) <==> (s.to_set().contains(x) && x != s.last()),
{
    let s0: Seq<Seq<u8>> = s.drop_last();
    if s0.to_set().contains(x) {
        assert(s0.contains(x));
        let i: int = choose|i: int| 0 <= i < s0.len() && s0[i] == x;
        assert(s[i] == x);
        assert(lex_lt(s[i], s[s.len() - 1]));
        lemma_lex_asymmetric(x, s.last());
        assert(s.contains(x));
    }
    if s.to_set().contains(x) && x != s.last() {
        assert(s.contains(x));
        let i: int = choose|i: int| 0 <= i < s.len() && s[i] == x;
        assert(s0[i] == x);
        assert(s0.contains(x));
    }
}

/// Appends `src` to `dst`.
pub fn append_bytes(dst: &mut Vec<u8>, src: &[u8])
    ensures
        final(dst)@ == old(dst)@ + src@,
{
    let mut i: usize = 0;
    while i < src.len()
        invariant
            i <= src.len(),
            dst@ == old(dst)@ + src@.subrange(0, i as int),
        decreases src.len() - i,
    {
        dst.push(src[i]);
        i += 1;
    }
    assert(src@.subrange(0, src@.len() as int) == src@);
}

/// A fresh vector holding the bytes of `src`.
pub fn copy_bytes(src: &[u8]) -> (out: Vec<u8>)
    ensures
        out@ == src@,
{
    let mut out: Vec<u8> = Vec::new();
    append_bytes(&mut out, src);
    out
}

/// Whether two byte strings hold the same bytes.
pub fn bytes_eq(a: &[u8], b: &[u8]) -> (same: bool)
    ensures
        same == (a@ == b@),
{
    if a.len() != b.len() {
        return false;
    }
    let mut i: usize = 0;
    while i < a.len()
        invariant
            i <= a.len(),
            a.len() == b.len(),
            forall|k: int| 0 <= k < i ==> a@[k] == b@[k],
        decreases a.len() - i,
    {
        if a[i] != b[i] {
            return false;
        }
        i += 1;
    }
    assert(a@ =~= b@);
    true
}

/// Where `a` stands to `b` in the byte-lexicographic order.
pub fn compare(a: &[u8], b: &[u8]) -> (rank: Rank)
    ensures
        rank == Rank::Before <==> lex_lt(a@, b@),
        rank == Rank::Same <==> a@ == b@,
        rank == Rank::After <==> lex_lt(b@, a@),
{
    let mut i: usize = 0;
    assert(a@.skip(0) == a@ && b@.skip(0) == b@);
    while i < a.len() && i < b.len()
        invariant
            i <= a.len(),
            i <= b.len(),
            a@.subrange(0, i as int) == b@.subrange(0, i as int),
            lex_lt(a@, b@) == lex_lt(a@.skip(i as int), b@.skip(i as int)),
            lex_lt(b@, a@) == lex_lt(b@.skip(i as int), a@.skip(i as int)),
        decreases a.len() - i,
    {
        let ghost ra = a@.skip(i as int);
        let ghost rb = b@.skip(i as int);
        assert(ra[0] == a@[i as int] && rb[0] == b@[i as int]);
        if a[i] < b[i] {
            proof {
                lemma_lex_asymmetric(ra, rb);
                lemma_differ_at(a@, b@, i as int);
            }
            return Rank::Before;
        }
        if a[i] > b[i] {
            proof {
                lemma_lex_asymmetric(rb, ra);
                lemma_differ_at(a@, b@, i as int);
            }
            return Rank::After;
        }
        proof {
            assert(ra.drop_first() == a@.skip(i + 1));
            assert(rb.drop_first() == b@.skip(i + 1));
            assert(a@.subrange(0, i + 1) =~= a@.subrange(0, i as int).push(a@[i as int]));
            assert(b@.subrange(0, i + 1) =~= b@.subrange(0, i as int).push(b@[i as int]));
        }
        i += 1;
    }
    let ghost ra = a@.skip(i as int);
    let ghost rb = b@.skip(i as int);
    if a.len() < b.len() {
        proof {
            lemma_lex_asymmetric(ra, rb);
        }
        Rank::Before
    } else if a.len() > b.len() {
        proof {
            lemma_lex_asymmetric(rb, ra);
        }
        Rank::After
    } else {
        proof {
            assert(a@ =~= a@.subrange(0, i as int));
            assert(b@ =~= b@.subrange(0, i as int));
            lemma_lex_irreflexive(a@);
        }
        Rank::Same
    }
}

/// Byte strings that differ at one position are not the same.
proof fn lemma_differ_at(a: Seq<u8>, b: Seq<u8>, i: int)
    requires
        0 <= i < a.len(),
        0 <= i < b.len(),
        a[i] != b[i],
    ensures
        a != b,
{
}

} // verus!
