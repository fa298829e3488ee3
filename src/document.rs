//! Documents: named field values.
use vstd::prelude::*;

use crate::field::{FieldValue, Value};
use crate::numtext::text_eq;
use crate::term::{terms_view, Term};
use crate::tokenizer::{token_texts, tokenize};

verus! {

/// A document: field names mapped to values, in the order the names were
/// first pushed.
#[derive(Debug)]
pub struct Document {
    fields: Vec<(String, FieldValue)>,
}

/// The tokens that an entry caches once the field `name` has been processed:
/// those of its text where it is that field and holds a string, else what it
/// cached before.
pub open spec fn processed_tokens(e: (Seq<char>, FieldValue), name: Seq<char>) -> Option<
    Seq<Seq<char>>,
> {
    if e.0 == name && e.1.value() is Text {
        Some(token_texts(e.1.value()->Text_0))
    } else {
        e.1.tokens()
    }
}

impl Document {
    /// The fields, in order.
    pub closed spec fn entries(&self) -> Seq<(Seq<char>, FieldValue)> {
        self.fields@.map_values(|e: (String, FieldValue)| (e.0@, e.1))
    }

    /// The stored values, in order, without cached tokens.
    pub open spec fn model(&self) -> Seq<(Seq<char>, Value)> {
        self.entries().map_values(|e: (Seq<char>, FieldValue)| (e.0, e.1.value()))
    }

    /// No value holds cached tokens.
    pub open spec fn untokenized(&self) -> bool {
        forall|e: int| 0 <= e < self.entries().len() ==> (#[trigger] self.entries()[e]).1.tokens() is None
    }

    /// No name stands twice.
    pub open spec fn wf(&self) -> bool {
        forall|i: int, j: int|
            0 <= i < self.entries().len() && 0 <= j < self.entries().len() && i != j
                ==> self.entries()[i].0 != self.entries()[j].0
    }

    pub open spec fn has(&self, name: Seq<char>) -> bool {
        exists|i: int| 0 <= i < self.entries().len() && self.entries()[i].0 == name
    }

    /// Where the field `name` stands, if it does.
    pub open spec fn pos(&self, name: Seq<char>) -> int {
        choose|i: int| 0 <= i < self.entries().len() && self.entries()[i].0 == name
    }

    /// The value of the field `name`, if it has one.
    pub open spec fn value_of(&self, name: Seq<char>) -> FieldValue {
        self.entries()[self.pos(name)].1
    }

    pub proof fn lemma_pos(&self, i: int)
        requires
            self.wf(),
            0 <= i < self.entries().len(),
        ensures
            self.has(self.entries()[i].0),
            self.pos(self.entries()[i].0) == i,
    {
        let k = self.entries()[i].0;
        assert(exists|j: int| 0 <= j < self.entries().len() && self.entries()[j].0 == k);
    }

    /// Two documents with the same names and values, in the same order, have
    /// the same fields.
    pub proof fn lemma_same_values(&self, other: &Document, name: Seq<char>)
        requires
            self.wf(),
            other.wf(),
            self.model() == other.model(),
        ensures
            self.has(name) == other.has(name),
            self.has(name) ==> self.value_of(name).value() == other.value_of(name).value(),
    {
        assert(self.model().len() == self.entries().len());
        assert(other.model().len() == other.entries().len());
        assert forall|i: int| 0 <= i < self.entries().len() implies self.entries()[i].0
            == other.entries()[i].0 && self.entries()[i].1.value() == other.entries()[i].1.value() by {
            assert(self.model()[i] == other.model()[i]);
        }
        if self.has(name) {
            let i = choose|i: int| 0 <= i < self.entries().len() && self.entries()[i].0 == name;
            self.lemma_pos(i);
            other.lemma_pos(i);
        }
        if other.has(name) {
            let i = choose|i: int| 0 <= i < other.entries().len() && other.entries()[i].0 == name;
            self.lemma_pos(i);
        }
    }

    pub fn new() -> (r: Document)
        ensures
            r.wf(),
            r.entries().len() == 0,
    {
        let r = Document { fields: Vec::new() };
        assert(r.entries() =~= Seq::empty());
        r
    }

    fn find(&self, name: &str) -> (r: Option<usize>)
        requires
            self.wf(),
        ensures
            r is Some <==> self.has(name@),
            r is Some ==> r->0 == self.pos(name@) && r->0 < self.entries().len(),
    {
        let mut i: usize = 0;
        while i < self.fields.len()
            invariant
                i <= self.fields@.len(),
                self.wf(),
                forall|j: int| 0 <= j < i ==> self.entries()[j].0 != name@,
            decreases self.fields@.len() - i,
        {
            if text_eq(self.fields[i].0.as_str(), name) {
                proof {
                    self.lemma_pos(i as int);
                }
                return Some(i);
            }
            i = i + 1;
        }
        None
    }

    /// The number of fields.
    pub fn len(&self) -> (r: usize)
        ensures
            r == self.entries().len(),
    {
        self.fields.len()
    }

    /// The name and value of the field at position `i`.
    pub fn field_at(&self, i: usize) -> (r: (&String, &FieldValue))
        requires
            i < self.entries().len(),
        ensures
            (r.0@, *r.1) == self.entries()[i as int],
            self.model()[i as int] == (r.0@, r.1.value()),
    {
        let e = &self.fields[i];
        (&e.0, &e.1)
    }

    /// Sets the field `field_name`: replaces its value where the document has
    /// one, else appends it.
    pub fn push(&mut self, field_name: &str, field_value: FieldValue)
        requires
            old(self).wf(),
        ensures
            final(self).wf(),
            final(self).entries() == if old(self).has(field_name@) {
                old(self).entries().update(
                    old(self).pos(field_name@),
                    (field_name@, field_value),
                )
            } else {
                old(self).entries().push((field_name@, field_value))
            },
    {
        match self.find(field_name) {
            Some(i) => {
                let entry = &mut self.fields[i];
                entry.1 = field_value;
                proof {
                    assert(self.entries() =~= old(self).entries().update(
                        i as int,
                        (field_name@, field_value),
                    ));
                }
            },
            None => {
                self.fields.push((field_name.to_string(), field_value));
                proof {
                    assert(self.entries() =~= old(self).entries().push((field_name@, field_value)));
                }
            },
        }
    }

    /// The value of the field `field_name`, if the document has one.
    pub fn get(&self, field_name: &str) -> (r: Option<&FieldValue>)
        requires
            self.wf(),
        ensures
            r is Some <==> self.has(field_name@),
            r is Some ==> *r->0 == self.value_of(field_name@),
    {
        match self.find(field_name) {
            Some(i) => Some(&self.fields[i].1),
            None => None,
        }
    }

    /// The value of the field `field_name`, to change in place, if the
    /// document has one.
    pub fn get_mut(&mut self, field_name: &str) -> (r: Option<&mut FieldValue>)
        requires
            old(self).wf(),
        ensures
            r is Some <==> old(self).has(field_name@),
            r is Some ==> {
                &&& *r->0 == old(self).value_of(field_name@)
                &&& final(self).entries() == old(self).entries().update(
                    old(self).pos(field_name@),
                    (field_name@, *final(r->0)),
                )
            },
            r is None ==> *final(self) == *old(self),
    {
        match self.find(field_name) {
            Some(i) => {
                let entry = &mut self.fields[i];
                Some(&mut entry.1)
            },
            None => None,
        }
    }

    /// Tokenizes the text of the string field `name` and caches the tokens in
    /// the value. Returns the tokens; `None`, with the document unchanged,
    /// where the document has no such field or its value is not a string.
    pub fn process_field(&mut self, name: &str) -> (r: Option<Vec<Term>>)
        requires
            old(self).wf(),
        ensures
            final(self).wf(),
            final(self).entries().len() == old(self).entries().len(),
            forall|e: int|
                0 <= e < old(self).entries().len() ==> {
                    let o = #[trigger] old(self).entries()[e];
                    let n = final(self).entries()[e];
                    &&& n.0 == o.0
                    &&& n.1.value() == o.1.value()
                    &&& n.1.tokens() == processed_tokens(o, name@)
                },
            ({
                let has_text = old(self).has(name@) && old(self).value_of(name@).value() is Text;
                &&& r is Some <==> has_text
                &&& has_text ==> terms_view(r->0@) == token_texts(
                    old(self).value_of(name@).value()->Text_0,
                )
            }),
    {
        match self.find(name) {
            Some(i) => {
                let is_text = match &self.fields[i].1 {
                    FieldValue::String(_, _) => true,
                    _ => false,
                };
                if !is_text {
                    return None;
                }
                let entry = &mut self.fields[i];
                match &mut entry.1 {
                    FieldValue::String(text, tokens) => {
                        let ts = tokenize(text.as_str());
                        let copy = crate::term::copy_terms(&ts);
                        *tokens = Some(ts);
                        proof {
                            old(self).lemma_pos(i as int);
                            assert(self.entries() =~= old(self).entries().update(
                                i as int,
                                (name@, self.entries()[i as int].1),
                            ));
                            assert(self.entries()[i as int].0 == name@);
                            assert(self.model() =~= old(self).model());
                            self.lemma_pos(i as int);
                        }
                        Some(copy)
                    },
                    _ => None,
                }
            },
            None => None,
        }
    }
}

/// Whether `other` holds the field `e`: a field of that name whose value has
/// the same text.
pub open spec fn holds_entry(other: &Document, e: (Seq<char>, FieldValue)) -> bool {
    exists|j: int|
        0 <= j < other.entries().len() && other.entries()[j].0 == e.0 && other.entries()[j].1.text()
            == e.1.text()
}

impl Document {
    fn holds(&self, name: &String, value: &FieldValue) -> (r: bool)
        ensures
            r == holds_entry(self, (name@, *value)),
    {
        let text = value.as_string();
        let mut j: usize = 0;
        while j < self.fields.len()
            invariant
                j <= self.fields@.len(),
                text@ == value.text(),
                forall|k: int|
                    0 <= k < j ==> !(self.entries()[k].0 == name@ && self.entries()[k].1.text()
                        == value.text()),
            decreases self.fields@.len() - j,
        {
            if self.fields[j].0 == *name && self.fields[j].1.as_string() == text {
                assert(self.entries()[j as int].0 == name@ && self.entries()[j as int].1.text() == value.text());
                return true;
            }
            j = j + 1;
        }
        false
    }
}

impl PartialEq for Document {
    /// Documents are equal when they have the same number of fields and each
    /// field of one stands in the other with a value of the same text.
    fn eq(&self, other: &Document) -> (r: bool) {
        if self.fields.len() != other.fields.len() {
            return false;
        }
        let mut i: usize = 0;
        while i < self.fields.len()
            invariant
                i <= self.fields@.len() == other.fields@.len(),
                forall|k: int| 0 <= k < i ==> holds_entry(other, #[trigger] self.entries()[k]),
            decreases self.fields@.len() - i,
        {
            if !other.holds(&self.fields[i].0, &self.fields[i].1) {
                assert(self.entries()[i as int] == (self.fields@[i as int].0@, self.fields@[i as int].1));
                assert(!holds_entry(other, self.entries()[i as int]));
                return false;
            }
            i = i + 1;
        }
        true
    }
}

impl vstd::std_specs::cmp::PartialEqSpecImpl for Document {
    open spec fn obeys_eq_spec() -> bool {
        true
    }

    open spec fn eq_spec(&self, other: &Document) -> bool {
        &&& self.entries().len() == other.entries().len()
        &&& forall|k: int| 0 <= k < self.entries().len() ==> holds_entry(other, #[trigger] self.entries()[k])
    }
}

} // verus!
