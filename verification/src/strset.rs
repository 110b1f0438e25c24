//! A set of strings with deterministic storage: a vector that never holds
//! two equal values, viewed as a `Set<Seq<char>>`.

use vstd::prelude::*;

verus! {

use crate::text::str_eq;

/// A finite set of strings. The stored order is the insertion order, but the
/// abstraction is the plain set of character sequences.
pub struct StringSet {
    items: Vec<String>,
}

impl View for StringSet {
    type V = Set<Seq<char>>;

    closed spec fn view(&self) -> Set<Seq<char>> {
        self.items.deep_view().to_set()
    }
}

/// Pushing a value onto a sequence inserts it into the corresponding set.
proof fn lemma_push_to_set(s: Seq<Seq<char>>, x: Seq<char>)
    ensures
        s.push(x).to_set() =~= s.to_set().insert(x),
{
    assert forall|a: Seq<char>| #[trigger] s.push(x).contains(a) implies (s.contains(a) || a
        == x) by {
        let k = choose|k: int| 0 <= k < s.push(x).len() && s.push(x)[k] == a;
        if k < s.len() {
            assert(s[k] == a);
        }
    }
    assert(s.push(x)[s.len() as int] == x);
    assert(s.push(x).contains(x));
    assert forall|a: Seq<char>| #[trigger] s.contains(a) implies s.push(x).contains(a) by {
        let k = choose|k: int| 0 <= k < s.len() && s[k] == a;
        assert(s.push(x)[k] == a);
    }
}

impl StringSet {
    #[verifier::type_invariant]
    spec fn wf(self) -> bool {
        self.items.deep_view().no_duplicates()
    }

    /// The empty set.
    pub fn new() -> (r: StringSet)
        ensures
            r@ == Set::<Seq<char>>::empty(),
    {
        let r = StringSet { items: Vec::new() };
        proof {
            assert(r.items.deep_view() =~= Seq::<Seq<char>>::empty());
            assert(r@ =~= Set::<Seq<char>>::empty());
        }
        r
    }

    /// Every set view is a finite set.
    pub proof fn lemma_finite(&self)
        ensures
            self@.finite(),
    {
        broadcast use vstd::seq_lib::seq_to_set_is_finite;

    }

    /// Membership test.
    pub fn contains(&self, value: &str) -> (r: bool)
        ensures
            r == self@.contains(value@),
    {
        let mut i: usize = 0;
        while i < self.items.len()
            invariant
                i <= self.items@.len(),
                forall|j: int| 0 <= j < i ==> self.items.deep_view()[j] != value@,
            decreases self.items@.len() - i,
        {
            if str_eq(self.items[i].as_str(), value) {
                proof {
                    assert(self.items.deep_view()[i as int] == value@);
                    assert(self.items.deep_view().contains(value@));
                }
                return true;
            }
            i += 1;
        }
        proof {
            if self.items.deep_view().contains(value@) {
                let j = choose|j: int|
                    0 <= j < self.items.deep_view().len() && self.items.deep_view()[j] == value@;
                assert(false);
            }
        }
        false
    }

    /// Adds one value; present values are left alone.
    pub fn insert(&mut self, value: String)
        ensures
            final(self)@ == old(self)@.insert(value@),
    {
        proof {
            use_type_invariant(&*self);
        }
        if self.contains(value.as_str()) {
            proof {
                assert(old(self)@.insert(value@) =~= old(self)@);
            }
            return ;
        }
        let ghost before = self.items.deep_view();
        let mut items: Vec<String> = Vec::new();
        std::mem::swap(&mut items, &mut self.items);
        items.push(value);
        proof {
            assert(items.deep_view() =~= before.push(value@));
            assert(!before.contains(value@));
            assert forall|i: int, j: int|
                0 <= i < j < items.deep_view().len() implies items.deep_view()[i]
                != items.deep_view()[j] by {
                if j == before.len() {
                    assert(items.deep_view()[i] == before[i]);
                    assert(before.contains(before[i]));
                }
            }
            lemma_push_to_set(before, value@);
        }
        self.items = items;
    }

    /// The number of values held.
    pub fn len(&self) -> (r: usize)
        ensures
            r == self@.len(),
            self@.finite(),
    {
        proof {
            use_type_invariant(self);
            self.items.deep_view().unique_seq_to_set();
            self.lemma_finite();
        }
        self.items.len()
    }

    /// Whether no value is held.
    pub fn is_empty(&self) -> (r: bool)
        ensures
            r == (self@.len() == 0),
            self@.finite(),
    {
        let n = self.len();
        n == 0
    }

    /// Adds every value of `other`.
    pub fn union_with(&mut self, other: &StringSet)
        ensures
            final(self)@ == old(self)@ + other@,
    {
        let ghost orig = self@;
        let ghost others = other.items.deep_view();
        let mut i: usize = 0;
        while i < other.items.len()
            invariant
                i <= other.items@.len(),
                others == other.items.deep_view(),
                self@ == orig + others.take(i as int).to_set(),
            decreases other.items@.len() - i,
        {
            let ghost prefix = others.take(i as int);
            self.insert(other.items[i].clone());
            proof {
                lemma_push_to_set(prefix, others[i as int]);
                assert(prefix.push(others[i as int]) =~= others.take(i + 1));
                assert((orig + prefix.to_set()).insert(others[i as int]) =~= orig
                    + others.take(i + 1).to_set());
            }
            i += 1;
        }
        proof {
            assert(others.take(others.len() as int) =~= others);
            assert(self@ =~= old(self)@ + other@);
        }
    }

    /// Builds a set from a vector of values; duplicates collapse.
    pub fn from_items(values: Vec<String>) -> (r: StringSet)
        ensures
            r@ == values.deep_view().to_set(),
    {
        let ghost vals = values.deep_view();
        let mut r = StringSet::new();
        let mut i: usize = 0;
        while i < values.len()
            invariant
                i <= values@.len(),
                vals == values.deep_view(),
                r@ == vals.take(i as int).to_set(),
            decreases values@.len() - i,
        {
            let ghost prefix = vals.take(i as int);
            r.insert(values[i].clone());
            proof {
                lemma_push_to_set(prefix, vals[i as int]);
                assert(prefix.push(vals[i as int]) =~= vals.take(i + 1));
                assert(prefix.to_set().insert(vals[i as int]) =~= vals.take(i + 1).to_set());
            }
            i += 1;
        }
        proof {
            assert(vals.take(vals.len() as int) =~= vals);
        }
        r
    }

    /// Read access to the stored values; they enumerate the set without
    /// repetition.
    pub fn as_vec(&self) -> (r: &Vec<String>)
        ensures
            r.deep_view().to_set() == self@,
            r.deep_view().no_duplicates(),
    {
        proof {
            use_type_invariant(self);
        }
        &self.items
    }
}

impl Clone for StringSet {
    /// The copy denotes the same set.
    fn clone(&self) -> (r: Self)
        ensures
            r@ == self@,
    {
        proof {
            use_type_invariant(self);
        }
        let mut v: Vec<String> = Vec::new();
        let mut i: usize = 0;
        while i < self.items.len()
            invariant
                i <= self.items@.len(),
                v@.len() == i,
                forall|k: int| 0 <= k < i ==> v.deep_view()[k] == self.items.deep_view()[k],
            decreases self.items@.len() - i,
        {
            let c = self.items[i].clone();
            let ghost prev = v@;
            let ghost prev_dv = v.deep_view();
            v.push(c);
            proof {
                assert forall|k: int| 0 <= k <= i implies v.deep_view()[k]
                    == self.items.deep_view()[k] by {
                    if k < i {
                        assert(v@[k] == prev[k]);
                        assert(prev_dv[k] == prev[k].deep_view());
                    } else {
                        assert(v@[k] == c);
                    }
                }
            }
            i += 1;
        }
        proof {
            assert(v.deep_view() =~= self.items.deep_view());
        }
        let r = StringSet { items: v };
        proof {
            assert(r@ =~= self@);
        }
        r
    }
}

} // verus!
