//! `NameSet`: a set of names kept in ascending order, each name once.
use vstd::prelude::*;

use crate::text::{
    chars_lt, chars_of, compare_chars, lemma_chars_lt_irreflexive, lemma_chars_lt_transitive,
    lemma_chars_lt_trichotomy, Cmp,
};

verus! {

/// Whether the names in `s` are in strictly ascending order (so none occurs twice).
pub open spec fn strictly_sorted(s: Seq<Seq<char>>) -> bool {
    forall|i: int, j: int| 0 <= i < j < s.len() ==> chars_lt(#[trigger] s[i], #[trigger] s[j])
}

/// A set of names, iterated in ascending order.
#[derive(Debug, PartialEq, Eq, PartialOrd, Ord, Hash)]
pub struct NameSet {
    names: Vec<String>,
}

impl View for NameSet {
    type V = Seq<Seq<char>>;

    /// The names, in ascending order.
    closed spec fn view(&self) -> Seq<Seq<char>> {
        self.names.deep_view()
    }
}

impl NameSet {
    /// The names are in ascending order, each once.
    #[verifier::type_invariant]
    spec fn sorted_inv(self) -> bool {
        strictly_sorted(self.names.deep_view())
    }

    /// An empty set.
    pub fn new() -> (r: NameSet)
        ensures
            r@ == Seq::<Seq<char>>::empty(),
    {
        let names: Vec<String> = Vec::new();
        assert(names.deep_view() =~= Seq::<Seq<char>>::empty());
        NameSet { names }
    }

    /// The number of names.
    pub fn len(&self) -> (r: usize)
        ensures
            r == self@.len(),
    {
        self.names.len()
    }

    /// Whether there is no name.
    pub fn is_empty(&self) -> (r: bool)
        ensures
            r == (self@.len() == 0),
    {
        self.names.len() == 0
    }

    /// The names, in ascending order.
    pub fn as_slice(&self) -> (r: &[String])
        ensures
            r.deep_view() == self@,
    {
        let r = self.names.as_slice();
        assert(r.deep_view() =~= self.names.deep_view());
        r
    }

    /// A copy of this set.
    pub fn copy(&self) -> (r: NameSet)
        ensures
            r@ == self@,
    {
        proof {
            use_type_invariant(self);
        }
        let mut out: Vec<String> = Vec::new();
        let mut i: usize = 0;
        while i < self.names.len()
            invariant
                i <= self.names@.len(),
                out.deep_view() == self.names.deep_view().take(i as int),
            decreases self.names@.len() - i,
        {
            let s = self.names[i].clone();
            let ghost before = out.deep_view();
            let ghost sv = s@;
            out.push(s);
            assert(out.deep_view() =~= before.push(sv));
            assert(self.names.deep_view().take(i + 1) =~= self.names.deep_view().take(
                i as int,
            ).push(sv));
            i += 1;
        }
        assert(self.names.deep_view().take(i as int) =~= self.names.deep_view());
        NameSet { names: out }
    }

    /// Whether the name at `i` comes before `key`.
    fn name_before(&self, i: usize, key: &[char]) -> (r: bool)
        requires
            i < self@.len(),
        ensures
            r == chars_lt(self@[i as int], key@),
    {
        let name = chars_of(self.names[i].as_str());
        compare_chars(name.as_slice(), key) == Cmp::Less
    }

    /// Whether the name at `i` is `key`.
    fn name_is(&self, i: usize, key: &[char]) -> (r: bool)
        requires
            i < self@.len(),
        ensures
            r == (self@[i as int] == key@),
    {
        let name = chars_of(self.names[i].as_str());
        compare_chars(name.as_slice(), key) == Cmp::Equal
    }

    /// Where `key` is or would be: the number of names before it.
    fn position(&self, key: &[char]) -> (r: usize)
        ensures
            r <= self@.len(),
            forall|j: int| 0 <= j < r ==> chars_lt(#[trigger] self@[j], key@),
            forall|j: int| r <= j < self@.len() ==> !chars_lt(#[trigger] self@[j], key@),
    {
        proof {
            use_type_invariant(self);
        }
        let mut i: usize = 0;
        while i < self.names.len() && self.name_before(i, key)
            invariant
                strictly_sorted(self@),
                i <= self@.len(),
                self@.len() == self.names@.len(),
                forall|j: int| 0 <= j < i ==> chars_lt(#[trigger] self@[j], key@),
            decreases self@.len() - i,
        {
            i += 1;
        }
        proof {
            if i < self@.len() {
                assert forall|j: int| i <= j < self@.len() implies !chars_lt(
                    #[trigger] self@[j],
                    key@,
                ) by {
                    if j > i && chars_lt(self@[j], key@) {
                        assert(chars_lt(self@[i as int], self@[j]));
                        lemma_chars_lt_transitive(self@[i as int], self@[j], key@);
                    }
                }
            }
        }
        i
    }

    /// Whether `name` is in the set.
    pub fn contains(&self, name: &str) -> (r: bool)
        ensures
            r == self@.contains(name@),
    {
        proof {
            use_type_invariant(self);
        }
        let key = chars_of(name);
        let i = self.position(key.as_slice());
        let found = i < self.names.len() && self.name_is(i, key.as_slice());
        proof {
            if !found && self@.contains(name@) {
                let j = choose|j: int| 0 <= j < self@.len() && self@[j] == name@;
                lemma_chars_lt_irreflexive(name@);
                if j > i {
                    assert(chars_lt(self@[i as int], self@[j]));
                    lemma_chars_lt_trichotomy(self@[i as int], name@);
                }
            }
        }
        found
    }

    /// Adds `name`; returns whether it was not there before.
    pub fn insert(&mut self, name: String) -> (r: bool)
        ensures
            r == !old(self)@.contains(name@),
            forall|x: Seq<char>| #[trigger]
                final(self)@.contains(x) <==> (old(self)@.contains(x) || x == name@),
    {
        proof {
            use_type_invariant(&*self);
        }
        let key = chars_of(name.as_str());
        let i = self.position(key.as_slice());
        let ghost old_items = self@;
        if i < self.names.len() && self.name_is(i, key.as_slice()) {
            proof {
                assert(old_items.contains(name@)) by {
                    assert(old_items[i as int] == name@);
                }
            }
            return false;
        }
        proof {
            lemma_chars_lt_irreflexive(name@);
            if i < old_items.len() {
                lemma_chars_lt_trichotomy(old_items[i as int], name@);
            }
            assert(!old_items.contains(name@)) by {
                if old_items.contains(name@) {
                    let j = choose|j: int| 0 <= j < old_items.len() && old_items[j] == name@;
                    if j > i {
                        assert(chars_lt(old_items[i as int], old_items[j]));
                    }
                }
            }
        }
        let ghost nv = name@;
        let mut names: Vec<String> = Vec::new();
        std::mem::swap(&mut names, &mut self.names);
        assert(names.deep_view() == old_items);
        names.insert(i, name);
        assert(names.deep_view() =~= old_items.insert(i as int, nv));
        proof {
            let s = names.deep_view();
            assert forall|a: int, b: int| 0 <= a < b < s.len() implies chars_lt(
                #[trigger] s[a],
                #[trigger] s[b],
            ) by {
                if b < i {
                    assert(s[a] == old_items[a] && s[b] == old_items[b]);
                } else if b == i {
                    assert(s[a] == old_items[a]);
                } else if a == i {
                    assert(s[b] == old_items[b - 1]);
                    if b - 1 > i {
                        assert(chars_lt(old_items[i as int], old_items[b - 1]));
                        lemma_chars_lt_transitive(nv, old_items[i as int], old_items[b - 1]);
                    }
                } else if a < i {
                    assert(s[a] == old_items[a] && s[b] == old_items[b - 1]);
                    assert(chars_lt(old_items[a], nv));
                    if b - 1 > i {
                        assert(chars_lt(old_items[i as int], old_items[b - 1]));
                        lemma_chars_lt_transitive(nv, old_items[i as int], old_items[b - 1]);
                    }
                    lemma_chars_lt_transitive(old_items[a], nv, old_items[b - 1]);
                } else {
                    assert(s[a] == old_items[a - 1] && s[b] == old_items[b - 1]);
                }
            }
            assert forall|x: Seq<char>|
                #[trigger] s.contains(x) <==> (old_items.contains(x) || x == nv) by {
                if s.contains(x) {
                    let j = choose|j: int| 0 <= j < s.len() && s[j] == x;
                    if j < i {
                        assert(old_items[j] == x);
                    } else if j > i {
                        assert(old_items[j - 1] == x);
                    }
                }
                if old_items.contains(x) {
                    let j = choose|j: int| 0 <= j < old_items.len() && old_items[j] == x;
                    if j < i {
                        assert(s[j] == x);
                    } else {
                        assert(s[j + 1] == x);
                    }
                }
                if x == nv {
                    assert(s[i as int] == x);
                }
            }
        }
        self.names = names;
        true
    }

    /// Adds every name of `other`.
    pub fn union_with(&mut self, other: &NameSet)
        ensures
            forall|x: Seq<char>| #[trigger]
                final(self)@.contains(x) <==> (old(self)@.contains(x) || other@.contains(x)),
    {
        let ghost start = self@;
        let mut i: usize = 0;
        while i < other.names.len()
            invariant
                i <= other@.len(),
                other@.len() == other.names@.len(),
                start == old(self)@,
                forall|x: Seq<char>| #[trigger]
                    self@.contains(x) <==> (start.contains(x) || other@.take(i as int).contains(
                        x,
                    )),
            decreases other@.len() - i,
        {
            let name = other.names[i].clone();
            assert(name@ == other@[i as int]);
            let ghost before = self@;
            self.insert(name);
            proof {
                let t = other@.take(i + 1);
                assert forall|x: Seq<char>| #[trigger]
                    self@.contains(x) <==> (start.contains(x) || t.contains(x)) by {
                    if t.contains(x) {
                        let j = choose|j: int| 0 <= j < t.len() && t[j] == x;
                        if j < i {
                            assert(other@.take(i as int)[j] == x);
                        }
                    }
                    if other@.take(i as int).contains(x) {
                        let j = choose|j: int|
                            0 <= j < other@.take(i as int).len() && other@.take(i as int)[j] == x;
                        assert(t[j] == x);
                    }
                    if x == other@[i as int] {
                        assert(t[i as int] == x);
                    }
                }
            }
            i += 1;
        }
        assert(other@.take(i as int) =~= other@);
    }
}

} // verus!
