//! A set of names that keeps its members in ascending order.

use vstd::prelude::*;
use crate::names::views;
use crate::order::{
    compare, lemma_ascending_distinct, lemma_less_asymmetric, lemma_less_transitive, lex_less,
    strictly_ascending, Rank,
};

verus! {

/// A set of names. Each name is held once, and the names come out in
/// ascending lexicographic byte order.
#[derive(Debug)]
pub struct NameSet {
    names: Vec<Vec<u8>>,
}

impl View for NameSet {
    type V = Set<Seq<u8>>;

    closed spec fn view(&self) -> Set<Seq<u8>> {
        self.order().to_set()
    }
}

impl NameSet {
    /// The members, one after another as they are held.
    pub closed spec fn order(&self) -> Seq<Seq<u8>> {
        views(self.names@)
    }

    #[verifier::type_invariant]
    spec fn ascending(&self) -> bool {
        strictly_ascending(self.order())
    }

    /// Makes an empty set.
    pub fn new() -> (set: NameSet)
        ensures
            set@ == Set::<Seq<u8>>::empty(),
    {
        NameSet { names: Vec::new() }
    }

    /// The number of names in the set.
    pub fn len(&self) -> (n: usize)
        ensures
            self@.finite(),
            n == self@.len(),
    {
        proof {
            use_type_invariant(self);
            lemma_ascending_distinct(self.order());
            self.order().unique_seq_to_set();
            vstd::seq_lib::seq_to_set_is_finite(self.order());
        }
        self.names.len()
    }

    /// Finds where `name` stands among the members: the index at which it is
    /// held, or else the index at which it would have to be put.
    fn search(&self, name: &[u8]) -> (r: (usize, bool))
        ensures
            r.0 <= self.order().len(),
            forall|j: int| 0 <= j < r.0 ==> lex_less(self.order()[j], name@),
            r.1 ==> r.0 < self.order().len() && self.order()[r.0 as int] == name@,
            !r.1 ==> forall|j: int|
                r.0 <= j < self.order().len() ==> lex_less(name@, self.order()[j]),
    {
        proof {
            use_type_invariant(self);
        }
        let ghost held = self.order();
        let mut lo: usize = 0;
        let mut hi: usize = self.names.len();
        while lo < hi
            invariant
                lo <= hi <= self.names.len(),
                held == views(self.names@),
                strictly_ascending(held),
                forall|j: int| 0 <= j < lo ==> lex_less(held[j], name@),
                forall|j: int| hi <= j < held.len() ==> lex_less(name@, held[j]),
            decreases hi - lo,
        {
            let mid: usize = lo + (hi - lo) / 2;
            match compare(self.names[mid].as_slice(), name) {
                Rank::Before => {
                    proof {
                        assert forall|j: int| 0 <= j < mid + 1 implies lex_less(held[j], name@) by {
                            if j < mid {
                                lemma_less_transitive(held[j], held[mid as int], name@);
                            }
                        }
                    }
                    lo = mid + 1;
                },
                Rank::After => {
                    proof {
                        assert forall|j: int| mid <= j < held.len() implies lex_less(
                            name@,
                            held[j],
                        ) by {
                            if mid < j {
                                lemma_less_transitive(name@, held[mid as int], held[j]);
                            }
                        }
                    }
                    hi = mid;
                },
                Rank::Same => {
                    proof {
                        assert(held[mid as int] == name@);
                    }
                    return (mid, true);
                },
            }
        }
        (lo, false)
    }

    /// Tells whether `name` is in the set.
    pub fn contains(&self, name: &[u8]) -> (r: bool)
        ensures
            r == self@.contains(name@),
    {
        let (at, found) = self.search(name);
        proof {
            if !found {
                assert forall|j: int| 0 <= j < self.order().len() implies self.order()[j]
                    != name@ by {
                    if j < at {
                        lemma_less_asymmetric(self.order()[j], name@);
                    } else {
                        lemma_less_asymmetric(name@, self.order()[j]);
                    }
                }
            }
        }
        found
    }

    /// Puts `name` into the set, at its place in the order, unless the set
    /// holds it already. Tells whether the name was new.
    pub fn insert(&mut self, name: Vec<u8>) -> (fresh: bool)
        ensures
            final(self)@ == old(self)@.insert(name@),
            fresh == !old(self)@.contains(name@),
    {
        let (at, found) = self.search(name.as_slice());
        let ghost before = self.order();
        if found {
            return false;
        }
        proof {
            use_type_invariant(&*self);
            assert forall|j: int| 0 <= j < before.len() implies before[j] != name@ by {
                if j < at {
                    lemma_less_asymmetric(before[j], name@);
                } else {
                    lemma_less_asymmetric(name@, before[j]);
                }
            }
        }
        let mut names: Vec<Vec<u8>> = Vec::new();
        std::mem::swap(&mut names, &mut self.names);
        names.insert(at, name);
        proof {
            let after = views(names@);
            assert forall|i: int, j: int| 0 <= i < j < after.len() implies lex_less(
                after[i],
                after[j],
            ) by {
                // What stood before `at` stands where it stood, and what
                // stood from `at` on stands one place further.
                if j < at {
                    assert(after[i] == before[i] && after[j] == before[j]);
                } else if j == at {
                    assert(after[i] == before[i]);
                } else if i < at {
                    assert(after[i] == before[i] && after[j] == before[j - 1]);
                } else if i > at {
                    assert(after[i] == before[i - 1] && after[j] == before[j - 1]);
                }
            }
            assert forall|x: Seq<u8>| after.to_set().contains(x) <==> before.to_set().insert(
                name@,
            ).contains(x) by {
                if after.to_set().contains(x) {
                    let k = choose|k: int| 0 <= k < after.len() && after[k] == x;
                    if k < at {
                        assert(before[k] == x);
                    } else if k > at {
                        assert(before[k - 1] == x);
                    }
                }
                if before.to_set().contains(x) {
                    let k = choose|k: int| 0 <= k < before.len() && before[k] == x;
                    if k < at {
                        assert(after[k] == x);
                    } else {
                        assert(after[k + 1] == x);
                    }
                }
                if x == name@ {
                    assert(after[at as int] == x);
                }
            }
        }
        self.names = names;
        true
    }

    /// Puts every name of `names` into the set.
    pub fn extend(&mut self, names: Vec<Vec<u8>>)
        ensures
            final(self)@ == old(self)@.union(views(names@).to_set()),
    {
        let ghost all = views(names@);
        let mut rest = names;
        loop
            invariant
                rest@ == names@.take(rest@.len() as int),
                rest@.len() <= names@.len(),
                all == views(names@),
                forall|x: Seq<u8>|
                    self@.contains(x) <==> old(self)@.contains(x) || exists|j: int|
                        rest@.len() <= j < all.len() && all[j] == x,
            ensures
                forall|x: Seq<u8>|
                    self@.contains(x) <==> old(self)@.contains(x) || exists|j: int|
                        0 <= j < all.len() && all[j] == x,
            decreases rest@.len(),
        {
            let ghost left = rest@.len() - 1;
            match rest.pop() {
                Some(name) => {
                    self.insert(name);
                    assert(name@ == all[left]);
                },
                None => {
                    break ;
                },
            }
        }
    }

    /// The names of the set, in ascending order.
    pub fn names(&self) -> (names: &Vec<Vec<u8>>)
        ensures
            strictly_ascending(views(names@)),
            views(names@).to_set() == self@,
    {
        proof {
            use_type_invariant(self);
        }
        &self.names
    }
}

} // verus!
