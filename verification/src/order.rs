//! The lexicographic order on byte strings, by which names are listed.

use vstd::prelude::*;

verus! {

/// Whether `a` and `b` agree on their first `k` bytes and `a` comes first at
/// position `k`: either `a` ends there while `b` goes on, or `a` holds the
/// smaller byte.
pub open spec fn less_at(a: Seq<u8>, b: Seq<u8>, k: int) -> bool {
    &&& 0 <= k <= a.len()
    &&& k < b.len()
    &&& forall|j: int| 0 <= j < k ==> a[j] == b[j]
    &&& (k < a.len() ==> a[k] < b[k])
}

/// Whether `a` comes strictly before `b` in lexicographic byte order.
pub open spec fn lex_less(a: Seq<u8>, b: Seq<u8>) -> bool {
    exists|k: int| less_at(a, b, k)
}

/// Whether every element of `s` comes strictly before all that follow it.
pub open spec fn strictly_ascending(s: Seq<Seq<u8>>) -> bool {
    forall|i: int, j: int| 0 <= i < j < s.len() ==> lex_less(s[i], s[j])
}

/// How one byte string stands to another in lexicographic order.
#[derive(Clone, Copy, Debug, PartialEq, Eq, Structural)]
pub enum Rank {
    /// The first comes strictly before the second.
    Before,
    /// The two are the same byte string.
    Same,
    /// The first comes strictly after the second.
    After,
}

/// No byte string comes before itself.
pub proof fn lemma_less_irreflexive(a: Seq<u8>)
    ensures
        !lex_less(a, a),
{
}

/// Of two byte strings at most one comes before the other.
pub proof fn lemma_less_asymmetric(a: Seq<u8>, b: Seq<u8>)
    requires
        lex_less(a, b),
    ensures
        !lex_less(b, a),
        a != b,
{
    let first = choose|k: int| less_at(a, b, k);
    assert forall|k: int| !less_at(b, a, k) by {
        // Whichever of `first` and `k` is smaller, the two agree on the byte
        // there, so neither holds the smaller one.
        if less_at(b, a, k) && first != k {
        }
    }
}

/// What comes before a byte string also comes before all that follow it.
pub proof fn lemma_less_transitive(a: Seq<u8>, b: Seq<u8>, c: Seq<u8>)
    requires
        lex_less(a, b),
        lex_less(b, c),
    ensures
        lex_less(a, c),
{
    let k1 = choose|k: int| less_at(a, b, k);
    let k2 = choose|k: int| less_at(b, c, k);
    // `a` and `c` part where the earlier of the two differences lies.
    let k = if k1 <= k2 { k1 } else { k2 };
    assert(less_at(a, c, k));
}

/// Two byte strings that agree on their first `i` bytes are the same, or one
/// of them comes before the other.
proof fn lemma_total_from(a: Seq<u8>, b: Seq<u8>, i: int)
    requires
        0 <= i <= a.len(),
        i <= b.len(),
        forall|j: int| 0 <= j < i ==> a[j] == b[j],
    ensures
        lex_less(a, b) || a == b || lex_less(b, a),
    decreases a.len() - i,
{
    if i == a.len() && i == b.len() {
        assert(a =~= b);
    } else if i == a.len() || (i < b.len() && a[i] < b[i]) {
        assert(less_at(a, b, i));
    } else if i == b.len() || b[i] < a[i] {
        assert(less_at(b, a, i));
    } else {
        lemma_total_from(a, b, i + 1);
    }
}

/// Any two byte strings are the same, or one of them comes before the other.
pub proof fn lemma_less_total(a: Seq<u8>, b: Seq<u8>)
    ensures
        lex_less(a, b) || a == b || lex_less(b, a),
{
    lemma_total_from(a, b, 0);
}

/// A strictly ascending sequence holds no byte string twice.
pub proof fn lemma_ascending_distinct(s: Seq<Seq<u8>>)
    requires
        strictly_ascending(s),
    ensures
        s.no_duplicates(),
{
    assert forall|i: int, j: int| 0 <= i < s.len() && 0 <= j < s.len() && i != j implies s[i]
        != s[j] by {
        if i < j {
            lemma_less_asymmetric(s[i], s[j]);
        } else {
            lemma_less_asymmetric(s[j], s[i]);
        }
    }
}

/// A set of byte strings can be put in strictly ascending order in one way
/// only: two strictly ascending sequences with the same elements are the same
/// sequence.
pub proof fn lemma_ascending_unique(s: Seq<Seq<u8>>, t: Seq<Seq<u8>>)
    requires
        strictly_ascending(s),
        strictly_ascending(t),
        s.to_set() == t.to_set(),
    ensures
        s == t,
    decreases s.len(),
{
    lemma_ascending_distinct(s);
    lemma_ascending_distinct(t);
    s.unique_seq_to_set();
    t.unique_seq_to_set();
    if s.len() > 0 {
        let top = s.len() - 1;
        assert(t.to_set().contains(s[top]));
        assert(s.to_set().contains(t[top]));
        let k = choose|k: int| 0 <= k < t.len() && t[k] == s[top];
        let m = choose|m: int| 0 <= m < s.len() && s[m] == t[top];
        // Each sequence ends with the greatest element of the set.
        if k < top {
            if m < top {
                lemma_less_transitive(s[top], t[top], s[top]);
            }
            lemma_less_irreflexive(s[top]);
        }
        assert(s[top] == t[top]);
        let s0 = s.drop_last();
        let t0 = t.drop_last();
        assert forall|x: Seq<u8>| s0.to_set().contains(x) <==> t0.to_set().contains(x) by {
            if s0.to_set().contains(x) {
                let i = choose|i: int| 0 <= i < s0.len() && s0[i] == x;
                assert(t.to_set().contains(x));
                let j = choose|j: int| 0 <= j < t.len() && t[j] == x;
                assert(t0[j] == x);
            }
            if t0.to_set().contains(x) {
                let i = choose|i: int| 0 <= i < t0.len() && t0[i] == x;
                assert(s.to_set().contains(x));
                let j = choose|j: int| 0 <= j < s.len() && s[j] == x;
                assert(s0[j] == x);
            }
        }
        assert(s0.to_set() =~= t0.to_set());
        lemma_ascending_unique(s0, t0);
        assert(t =~= t0.push(t[top]));
    }
}

/// Compares two byte strings byte by byte, the shorter first where one is the
/// beginning of the other.
pub fn compare(a: &[u8], b: &[u8]) -> (r: Rank)
    ensures
        r is Before <==> lex_less(a@, b@),
        r is Same <==> a@ == b@,
        r is After <==> lex_less(b@, a@),
{
    let mut i: usize = 0;
    while i < a.len() && i < b.len()
        invariant
            i <= a.len(),
            i <= b.len(),
            forall|j: int| 0 <= j < i ==> a@[j] == b@[j],
        decreases a.len() - i,
    {
        if a[i] < b[i] {
            proof {
                assert(less_at(a@, b@, i as int));
                lemma_less_asymmetric(a@, b@);
            }
            return Rank::Before;
        }
        if a[i] > b[i] {
            proof {
                assert(less_at(b@, a@, i as int));
                lemma_less_asymmetric(b@, a@);
            }
            return Rank::After;
        }
        i += 1;
    }
    if a.len() < b.len() {
        proof {
            assert(less_at(a@, b@, i as int));
            lemma_less_asymmetric(a@, b@);
        }
        Rank::Before
    } else if a.len() > b.len() {
        proof {
            assert(less_at(b@, a@, i as int));
            lemma_less_asymmetric(b@, a@);
        }
        Rank::After
    } else {
        proof {
            assert(a@ =~= b@);
            lemma_less_irreflexive(a@);
        }
        Rank::Same
    }
}

} // verus!
