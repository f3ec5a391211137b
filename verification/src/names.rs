//! Sets of names.

use vstd::prelude::*;
use crate::{order, text};

verus! {

/// A set of names, listed in ascending order.
#[derive(Debug, Clone)]
pub struct NameSet {
    pub names: Vec<String>,
}

impl View for NameSet {
    type V = Set<Seq<char>>;

    open spec fn view(&self) -> Set<Seq<char>> {
        text::texts(self.names@).to_set()
    }
}

impl NameSet {
    /// The names stand in ascending order, so none stands twice.
    pub open spec fn wf(self) -> bool {
        order::ascending(text::texts(self.names@))
    }

    /// The empty set.
    pub fn new() -> (s: Self)
        ensures
            s.wf(),
            s@ == Set::<Seq<char>>::empty(),
    {
        let s = NameSet { names: Vec::new() };
        assert(s@ =~= Set::<Seq<char>>::empty());
        s
    }

    /// Adds a name.
    pub fn insert(&mut self, name: &str)
        requires
            old(self).wf(),
        ensures
            final(self).wf(),
            final(self)@ == old(self)@.insert(name@),
    {
        order::insert_ascending(&mut self.names, name);
        proof {
            assert forall|x: Seq<char>| self@.contains(x) <==> old(self)@.insert(name@).contains(
                x,
            ) by {
                assert(text::texts(self.names@).contains(x) <==> text::texts(
                    old(self).names@,
                ).contains(x) || x == name@);
            }
            assert(self@ =~= old(self)@.insert(name@));
        }
    }

    /// The position of a name in the listing.
    fn position(&self, name: &str) -> (r: Option<usize>)
        ensures
            match r {
                Some(i) => i < self.names@.len() && self.names@[i as int]@ == name@,
                None => !self@.contains(name@),
            },
    {
        let mut i: usize = 0;
        while i < self.names.len()
            invariant
                i <= self.names@.len(),
                forall|j: int| 0 <= j < i ==> (#[trigger] self.names@[j])@ != name@,
            decreases self.names@.len() - i,
        {
            if text::same(self.names[i].as_str(), name) {
                return Some(i);
            }
            i += 1;
        }
        proof {
            let all = text::texts(self.names@);
            if all.contains(name@) {
                let j = choose|j: int| 0 <= j < all.len() && all[j] == name@;
                assert(self.names@[j]@ == name@);
            }
        }
        None
    }

    /// Whether the set has this name.
    pub fn contains(&self, name: &str) -> (r: bool)
        ensures
            r == self@.contains(name@),
    {
        match self.position(name) {
            Some(i) => {
                assert(text::texts(self.names@)[i as int] == name@);
                true
            },
            None => false,
        }
    }

    /// Takes a name out.
    pub fn remove(&mut self, name: &str)
        requires
            old(self).wf(),
        ensures
            final(self).wf(),
            final(self)@ == old(self)@.remove(name@),
    {
        match self.position(name) {
            Some(i) => {
                let ghost before = text::texts(self.names@);
                let _ = self.names.remove(i);
                proof {
                    let after = text::texts(self.names@);
                    assert(after =~= before.remove(i as int));
                    assert forall|a: int, b: int| 0 <= a < b < after.len() implies order::text_lt(
                        #[trigger] after[a],
                        #[trigger] after[b],
                    ) by {
                        let x = if a < i { a } else { a + 1 };
                        let y = if b < i { b } else { b + 1 };
                        assert(order::text_lt(before[x], before[y]));
                    }
                    assert forall|x: Seq<char>| self@.contains(x) <==> old(self)@.remove(
                        name@,
                    ).contains(x) by {
                        if after.contains(x) {
                            let k = choose|k: int| 0 <= k < after.len() && after[k] == x;
                            let q = if k < i { k } else { k + 1 };
                            assert(before[q] == x);
                            if q < i {
                                order::lemma_text_lt_asymmetric(before[q], before[i as int]);
                            } else {
                                order::lemma_text_lt_asymmetric(before[i as int], before[q]);
                            }
                        }
                        if before.contains(x) && x != name@ {
                            let q = choose|q: int| 0 <= q < before.len() && before[q] == x;
                            let k = if q < i { q } else { q - 1 };
                            assert(after[k] == x);
                        }
                    }
                    assert(self@ =~= old(self)@.remove(name@));
                }
            },
            None => {
                assert(self@ =~= old(self)@.remove(name@));
            },
        }
    }

    /// How many names the set has.
    pub fn len(&self) -> (r: usize)
        requires
            self.wf(),
        ensures
            r == self@.len(),
    {
        proof {
            let all = text::texts(self.names@);
            assert forall|i: int, j: int|
                0 <= i < all.len() && 0 <= j < all.len() && i != j implies all[i] != all[j] by {
                if i < j {
                    order::lemma_text_lt_asymmetric(all[i], all[j]);
                } else {
                    order::lemma_text_lt_asymmetric(all[j], all[i]);
                }
            }
            all.unique_seq_to_set();
        }
        self.names.len()
    }

    /// Whether the set has no name.
    pub fn is_empty(&self) -> (r: bool)
        ensures
            r == (self@ == Set::<Seq<char>>::empty()),
    {
        let r = self.names.len() == 0;
        proof {
            let all = text::texts(self.names@);
            if !r {
                assert(all.contains(all[0]));
                assert(self@.contains(all[0]));
            } else {
                assert(self@ =~= Set::<Seq<char>>::empty());
            }
        }
        r
    }

    /// The names, separated by commas.
    pub fn comma_separated(&self) -> (r: String)
        ensures
            r@ == text::joined(text::texts(self.names@), ","@),
    {
        text::join(&self.names, ",")
    }
}

} // verus!
