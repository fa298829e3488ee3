//! Per-field inverted index: each term's posting list of document ids.
use vstd::prelude::*;

use crate::term::Term;

verus! {

/// The postings of one field. A document id stands in a term's list once per
/// occurrence of the term in that document's field, in the order they were
/// pushed.
#[derive(Debug)]
pub struct InvertedIndex {
    pub field_name: String,
    entries: Vec<(Term, Vec<i32>)>,
}

impl View for InvertedIndex {
    type V = Map<Seq<char>, Seq<i32>>;

    closed spec fn view(&self) -> Map<Seq<char>, Seq<i32>> {
        Map::new(
            |k: Seq<char>| exists|i: int| 0 <= i < self.entries@.len() && self.key(i) == k,
            |k: Seq<char>|
                self.entries@[choose|i: int| 0 <= i < self.entries@.len() && self.key(i) == k].1@,
        )
    }
}

impl InvertedIndex {
    /// The name of the field that the index belongs to.
    pub closed spec fn name(&self) -> Seq<char> {
        self.field_name@
    }

    pub closed spec fn key(&self, i: int) -> Seq<char> {
        self.entries@[i].0@
    }

    /// No term has two entries.
    pub closed spec fn wf(&self) -> bool {
        forall|i: int, j: int|
            0 <= i < self.entries@.len() && 0 <= j < self.entries@.len() && i != j ==> self.key(i)
                != self.key(j)
    }

    proof fn lemma_entry(&self, i: int)
        requires
            self.wf(),
            0 <= i < self.entries@.len(),
        ensures
            self@.contains_key(self.key(i)),
            self@[self.key(i)] == self.entries@[i].1@,
    {
        let k = self.key(i);
        assert(exists|j: int| 0 <= j < self.entries@.len() && self.key(j) == k);
        let j = choose|j: int| 0 <= j < self.entries@.len() && self.key(j) == k;
        assert(j == i);
    }

    /// An empty index for the named field.
    pub fn new(field_name: String) -> (r: InvertedIndex)
        ensures
            r.wf(),
            r@ == Map::<Seq<char>, Seq<i32>>::empty(),
            r.name() == field_name@,
    {
        let r = InvertedIndex { field_name, entries: Vec::new() };
        assert(r@ =~= Map::<Seq<char>, Seq<i32>>::empty());
        r
    }

    fn find(&self, term: &Term) -> (r: Option<usize>)
        ensures
            r is Some ==> r->0 < self.entries@.len() && self.key(r->0 as int) == term@,
            r is None ==> forall|i: int| 0 <= i < self.entries@.len() ==> self.key(i) != term@,
    {
        let mut i: usize = 0;
        while i < self.entries.len()
            invariant
                i <= self.entries@.len(),
                forall|j: int| 0 <= j < i ==> self.key(j) != term@,
            decreases self.entries@.len() - i,
        {
            if self.entries[i].0.same(term) {
                return Some(i);
            }
            i = i + 1;
        }
        None
    }

    /// Appends `id` to the posting list of `term`, creating the list if absent.
    pub fn push(&mut self, term: Term, id: i32)
        requires
            old(self).wf(),
        ensures
            final(self).wf(),
            final(self).name() == old(self).name(),
            final(self)@ == old(self)@.insert(
                term@,
                if old(self)@.contains_key(term@) {
                    old(self)@[term@].push(id)
                } else {
                    seq![id]
                },
            ),
    {
        match self.find(&term) {
            Some(i) => {
                proof {
                    old(self).lemma_entry(i as int);
                }
                let entry = &mut self.entries[i];
                entry.1.push(id);
                proof {
                    assert(self.entries@ == old(self).entries@.update(
                        i as int,
                        (old(self).entries@[i as int].0, self.entries@[i as int].1),
                    ));
                    assert forall|j: int| 0 <= j < self.entries@.len() implies #[trigger] self.key(j)
                        == old(self).key(j) by {}
                    assert forall|j: int| 0 <= j < self.entries@.len() && j != i implies self@[self.key(j)]
                        == old(self)@[self.key(j)] by {
                        self.lemma_entry(j);
                        old(self).lemma_entry(j);
                    }
                    self.lemma_entry(i as int);
                    assert(self@ =~= old(self)@.insert(term@, old(self)@[term@].push(id))) by {
                        assert forall|k: Seq<char>| #[trigger] self@.contains_key(k) <==> old(self)@.insert(term@, old(self)@[term@].push(id)).contains_key(k) by {
                            if self@.contains_key(k) {
                                let j = choose|j: int| 0 <= j < self.entries@.len() && self.key(j) == k;
                                old(self).lemma_entry(j);
                            }
                            if old(self)@.contains_key(k) {
                                let j = choose|j: int| 0 <= j < old(self).entries@.len() && old(self).key(j) == k;
                                self.lemma_entry(j);
                            }
                        }
                        assert forall|k: Seq<char>| #[trigger] self@.contains_key(k) implies self@[k] == old(self)@.insert(term@, old(self)@[term@].push(id))[k] by {
                            let j = choose|j: int| 0 <= j < self.entries@.len() && self.key(j) == k;
                            self.lemma_entry(j);
                            old(self).lemma_entry(j);
                        }
                    }
                }
            },
            None => {
                self.entries.push((term, vec![id]));
                proof {
                    let n = old(self).entries@.len() as int;
                    assert forall|j: int| 0 <= j < n implies #[trigger] self.key(j) == old(self).key(j) by {}
                    assert(self.key(n) == term@);
                    assert forall|k: Seq<char>| #[trigger] self@.contains_key(k) <==> old(self)@.insert(term@, seq![id]).contains_key(k) by {
                        if self@.contains_key(k) {
                            let j = choose|j: int| 0 <= j < self.entries@.len() && self.key(j) == k;
                            if j < n {
                                old(self).lemma_entry(j);
                            }
                        }
                        if old(self)@.contains_key(k) {
                            let j = choose|j: int| 0 <= j < old(self).entries@.len() && old(self).key(j) == k;
                            self.lemma_entry(j);
                        }
                        if k == term@ {
                            self.lemma_entry(n);
                        }
                    }
                    assert forall|k: Seq<char>| #[trigger] self@.contains_key(k) implies self@[k] == old(self)@.insert(term@, seq![id])[k] by {
                        let j = choose|j: int| 0 <= j < self.entries@.len() && self.key(j) == k;
                        self.lemma_entry(j);
                        if j < n {
                            old(self).lemma_entry(j);
                        }
                    }
                    assert(self@ =~= old(self)@.insert(term@, seq![id]));
                }
            },
        }
    }

    /// The posting list of `term`, if it has one.
    pub fn get(&self, term: &Term) -> (r: Option<&Vec<i32>>)
        requires
            self.wf(),
        ensures
            r is Some <==> self@.contains_key(term@),
            r is Some ==> r->0@ == self@[term@],
    {
        match self.find(term) {
            Some(i) => {
                proof {
                    self.lemma_entry(i as int);
                }
                Some(&self.entries[i].1)
            },
            None => None,
        }
    }
}

} // verus!
