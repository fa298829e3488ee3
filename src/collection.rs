//! Collections: the document store, the field schema, and indexing.
use vstd::prelude::*;

use crate::document::Document;
use crate::error::EngineError;
use crate::field::{Field, FieldType, FieldValue, Value};
use crate::inverted_index::InvertedIndex;
use crate::numtext::text_eq;
use crate::term::{terms_view, Term};
use crate::tokenizer::token_texts;

verus! {

/// A set of documents keyed by id, and the ordered list of schema fields that
/// indexing and search go by.
#[derive(Debug)]
pub struct Collection {
    documents: Vec<(i32, Document)>,
    fields: Vec<Field>,
    file_name: Option<String>,
    last_index: i32,
}

/// The tokens that indexing takes from a document for the field `name`: those
/// of its text where it holds a string there, else none.
pub open spec fn field_tokens(d: Document, name: Seq<char>) -> Seq<Seq<char>> {
    if d.has(name) && d.value_of(name).value() is Text {
        token_texts(d.value_of(name).value()->Text_0)
    } else {
        Seq::empty()
    }
}

/// `id` appended to the posting list of `t`.
pub open spec fn add_posting(m: Map<Seq<char>, Seq<i32>>, t: Seq<char>, id: i32) -> Map<
    Seq<char>,
    Seq<i32>,
> {
    m.insert(t, if m.contains_key(t) { m[t].push(id) } else { seq![id] })
}

/// `id` appended to the posting list of each of `ts`, in order.
pub open spec fn add_postings(m: Map<Seq<char>, Seq<i32>>, id: i32, ts: Seq<Seq<char>>) -> Map<
    Seq<char>,
    Seq<i32>,
>
    decreases ts.len(),
{
    if ts.len() == 0 {
        m
    } else {
        add_posting(add_postings(m, id, ts.drop_last()), ts.last(), id)
    }
}

/// The index of the field `name` over the documents, in order: each token
/// of each document adds the document's id to the token's list.
pub open spec fn built_index(docs: Seq<(i32, Document)>, name: Seq<char>) -> Map<
    Seq<char>,
    Seq<i32>,
>
    decreases docs.len(),
{
    if docs.len() == 0 {
        Map::empty()
    } else {
        add_postings(
            built_index(docs.drop_last(), name),
            docs.last().0,
            field_tokens(docs.last().1, name),
        )
    }
}

/// The tokens that an entry caches after the fields `names` were processed.
pub open spec fn committed_tokens(e: (Seq<char>, FieldValue), names: Seq<Seq<char>>) -> Option<
    Seq<Seq<char>>,
> {
    if names.contains(e.0) && e.1.value() is Text {
        Some(token_texts(e.1.value()->Text_0))
    } else {
        e.1.tokens()
    }
}

/// Once a push has stored a document under an id, that id is taken: a second
/// push under the same id is refused with `IdentityConflict` and leaves the
/// documents as they are.
pub proof fn lemma_id_taken_after_push(before: Collection, after: Collection, id: i32, doc: Document)
    requires
        after.docs() == before.docs().push((id, doc)),
    ensures
        after.ids().contains(id),
{
    assert(after.ids()[before.docs().len() as int] == id);
}

/// Appends `id` to the list of each term of `ts`, in order.
fn index_tokens(index: &mut InvertedIndex, ts: &Vec<Term>, id: i32)
    requires
        old(index).wf(),
    ensures
        final(index).wf(),
        final(index).name() == old(index).name(),
        final(index)@ == add_postings(old(index)@, id, terms_view(ts@)),
{
    let mut k: usize = 0;
    while k < ts.len()
        invariant
            k <= ts@.len(),
            index.wf(),
            index.name() == old(index).name(),
            index@ == add_postings(old(index)@, id, terms_view(ts@).subrange(0, k as int)),
        decreases ts@.len() - k,
    {
        index.push(ts[k].duplicate(), id);
        proof {
            let s = terms_view(ts@).subrange(0, k + 1);
            assert(s.drop_last() =~= terms_view(ts@).subrange(0, k as int));
        }
        k = k + 1;
    }
    assert(terms_view(ts@).subrange(0, k as int) =~= terms_view(ts@));
}

impl Collection {
    /// The documents with their ids, in the order they were pushed.
    pub closed spec fn docs(&self) -> Seq<(i32, Document)> {
        self.documents@
    }

    /// The schema fields, in the order they were declared.
    pub closed spec fn schema(&self) -> Seq<Field> {
        self.fields@
    }

    /// The id that the next document pushed without one receives.
    pub closed spec fn next_id(&self) -> i32 {
        self.last_index
    }

    pub closed spec fn file_name_spec(&self) -> Option<Seq<char>> {
        match self.file_name {
            Some(s) => Some(s@),
            None => None,
        }
    }

    /// The schema as names and declared types.
    pub open spec fn schema_model(&self) -> Seq<(Seq<char>, FieldType)> {
        self.schema().map_values(|f: Field| (f.name@, f.field_type))
    }

    /// The documents as ids and stored values, without cached tokens.
    pub open spec fn docs_model(&self) -> Seq<(i32, Seq<(Seq<char>, Value)>)> {
        self.docs().map_values(|d: (i32, Document)| (d.0, d.1.model()))
    }

    /// The schema field named `n`.
    pub open spec fn field_named(&self, n: Seq<char>) -> Field {
        self.schema()[choose|i: int| 0 <= i < self.schema().len() && self.schema()[i].name@ == n]
    }

    pub proof fn lemma_field_named(&self, i: int)
        requires
            self.wf(),
            0 <= i < self.schema().len(),
        ensures
            self.field_named(self.schema()[i].name@) == self.schema()[i],
    {
        let n = self.schema()[i].name@;
        assert(exists|j: int| 0 <= j < self.schema().len() && self.schema()[j].name@ == n);
    }

    /// The position of the schema field named `name`, if one is declared.
    pub fn field_position(&self, name: &str) -> (r: Option<usize>)
        ensures
            r is Some <==> self.field_names().contains(name@),
            r is Some ==> r->0 < self.schema().len() && self.schema()[r->0 as int].name@ == name@,
    {
        let r = self.find_field(name);
        proof {
            if r is Some {
                assert(self.field_names()[r->0 as int] == name@);
            }
        }
        r
    }

    /// Every index is empty and no value holds cached tokens: the state
    /// before the first commit.
    pub open spec fn unprocessed(&self) -> bool {
        &&& forall|k: int| 0 <= k < self.schema().len() ==> (#[trigger] self.schema()[k]).inverted_index@
            == Map::<Seq<char>, Seq<i32>>::empty()
        &&& forall|j: int| 0 <= j < self.docs().len() ==> (#[trigger] self.docs()[j]).1.untokenized()
    }

    pub open spec fn ids(&self) -> Seq<i32> {
        self.docs().map_values(|d: (i32, Document)| d.0)
    }

    pub open spec fn field_names(&self) -> Seq<Seq<char>> {
        self.schema().map_values(|f: Field| f.name@)
    }

    /// Ids and field names are unique; every document and index is well formed.
    pub open spec fn wf(&self) -> bool {
        &&& forall|i: int, j: int|
            0 <= i < self.docs().len() && 0 <= j < self.docs().len() && i != j
                ==> self.docs()[i].0 != self.docs()[j].0
        &&& forall|i: int| 0 <= i < self.docs().len() ==> (#[trigger] self.docs()[i]).1.wf()
        &&& forall|i: int, j: int|
            0 <= i < self.schema().len() && 0 <= j < self.schema().len() && i != j
                ==> self.schema()[i].name@ != self.schema()[j].name@
        &&& forall|i: int|
            0 <= i < self.schema().len() ==> {
                &&& (#[trigger] self.schema()[i]).inverted_index.wf()
                &&& self.schema()[i].inverted_index.name() == self.schema()[i].name@
            }
    }

    /// An empty collection: no fields, no documents, ids from `0`.
    pub fn new() -> (r: Collection)
        ensures
            r.wf(),
            r.unprocessed(),
            r.docs().len() == 0,
            r.schema().len() == 0,
            r.next_id() == 0,
            r.file_name_spec() is None,
    {
        Collection { documents: Vec::new(), fields: Vec::new(), file_name: None, last_index: 0 }
    }

    /// The same as `new`.
    pub fn default() -> (r: Collection)
        ensures
            r.wf(),
            r.docs().len() == 0,
            r.schema().len() == 0,
            r.next_id() == 0,
            r.file_name_spec() is None,
    {
        Collection::new()
    }

    /// The file that the collection is saved to and loaded from, if set.
    pub fn file_name(&self) -> (r: Option<&String>)
        ensures
            r is Some <==> self.file_name_spec() is Some,
            r is Some ==> r->0@ == self.file_name_spec()->0,
    {
        match &self.file_name {
            Some(s) => Some(s),
            None => None,
        }
    }

    /// Sets the id that the next document pushed without one receives.
    pub fn set_last_index(&mut self, id: i32)
        ensures
            final(self).docs() == old(self).docs(),
            final(self).schema() == old(self).schema(),
            final(self).file_name_spec() == old(self).file_name_spec(),
            final(self).next_id() == id,
    {
        self.last_index = id;
    }

    /// Sets the file that the collection is saved to and loaded from.
    pub fn set_file_name(&mut self, name: Option<String>)
        ensures
            final(self).docs() == old(self).docs(),
            final(self).schema() == old(self).schema(),
            final(self).next_id() == old(self).next_id(),
            final(self).file_name_spec() == match name {
                Some(s) => Some(s@),
                None => None,
            },
    {
        self.file_name = name;
    }

    fn find_field(&self, name: &str) -> (r: Option<usize>)
        ensures
            r is Some ==> r->0 < self.schema().len() && self.schema()[r->0 as int].name@ == name@,
            r is None ==> !self.field_names().contains(name@),
    {
        let mut i: usize = 0;
        while i < self.fields.len()
            invariant
                i <= self.fields@.len(),
                forall|j: int| 0 <= j < i ==> self.schema()[j].name@ != name@,
            decreases self.fields@.len() - i,
        {
            if text_eq(self.fields[i].name.as_str(), name) {
                return Some(i);
            }
            i = i + 1;
        }
        proof {
            if self.field_names().contains(name@) {
                let k = choose|k: int| 0 <= k < self.field_names().len() && self.field_names()[k] == name@;
                assert(self.schema()[k].name@ == name@);
            }
        }
        None
    }

    /// Declares a field of the given type, with an empty index, after the
    /// fields declared before. A name that is already declared is refused.
    pub fn push_field(&mut self, name: &str, field_type: FieldType) -> (r: Result<(), EngineError>)
        requires
            old(self).wf(),
        ensures
            final(self).wf(),
            final(self).docs() == old(self).docs(),
            final(self).next_id() == old(self).next_id(),
            final(self).file_name_spec() == old(self).file_name_spec(),
            r is Err <==> old(self).field_names().contains(name@),
            r is Err ==> r->Err_0 == EngineError::SchemaError && final(self).schema() == old(self).schema(),
            r is Ok ==> {
                &&& final(self).schema().len() == old(self).schema().len() + 1
                &&& final(self).schema().subrange(0, old(self).schema().len() as int) == old(self).schema()
                &&& final(self).schema().last().name@ == name@
                &&& final(self).schema().last().field_type == field_type
                &&& final(self).schema().last().inverted_index@ == Map::<Seq<char>, Seq<i32>>::empty()
            },
    {
        match self.find_field(name) {
            Some(i) => {
                proof {
                    assert(self.field_names()[i as int] == name@);
                    assert(self.wf());
                }
                Err(EngineError::SchemaError)
            },
            None => {
                let field_name = name.to_string();
                let inverted_index = InvertedIndex::new(field_name.clone());
                self.fields.push(Field { name: field_name, field_type, inverted_index });
                proof {
                    assert(self.schema().subrange(0, old(self).schema().len() as int) =~= old(self).schema());
                    assert forall|i: int| 0 <= i < old(self).schema().len() implies self.schema()[i] == old(self).schema()[i] by {}
                    assert(self.schema()[old(self).schema().len() as int].inverted_index.wf());
                    assert(self.schema()[old(self).schema().len() as int].inverted_index.name() == name@);
                    assert(self.schema()[old(self).schema().len() as int].name@ == name@);
                    assert forall|a: int, b: int|
                        0 <= a < self.schema().len() && 0 <= b < self.schema().len() && a != b
                        implies self.schema()[a].name@ != self.schema()[b].name@ by {
                        let n = old(self).schema().len() as int;
                        if a < n && b < n {
                            assert(self.schema()[a] == old(self).schema()[a]);
                            assert(self.schema()[b] == old(self).schema()[b]);
                        } else if a < n {
                            assert(old(self).field_names()[a] == old(self).schema()[a].name@);
                            assert(self.schema()[a] == old(self).schema()[a]);
                        } else {
                            assert(old(self).field_names()[b] == old(self).schema()[b].name@);
                            assert(self.schema()[b] == old(self).schema()[b]);
                        }
                    }
                    assert forall|a: int| 0 <= a < self.schema().len() implies {
                        &&& (#[trigger] self.schema()[a]).inverted_index.wf()
                        &&& self.schema()[a].inverted_index.name() == self.schema()[a].name@
                    } by {
                        if a < old(self).schema().len() {
                            assert(self.schema()[a] == old(self).schema()[a]);
                        }
                    }
                    assert forall|i: int| 0 <= i < old(self).schema().len() implies self.schema()[i].name@ != name@ by {
                        assert(old(self).field_names()[i] == old(self).schema()[i].name@);
                    }
                    assert(self.docs() == old(self).docs());
                }
                Ok(())
            },
        }
    }

    fn find_doc(&self, id: i32) -> (r: Option<usize>)
        ensures
            r is Some ==> r->0 < self.docs().len() && self.docs()[r->0 as int].0 == id
                && self.ids().contains(id),
            r is None ==> !self.ids().contains(id),
    {
        let mut i: usize = 0;
        while i < self.documents.len()
            invariant
                i <= self.documents@.len(),
                forall|j: int| 0 <= j < i ==> self.docs()[j].0 != id,
            decreases self.documents@.len() - i,
        {
            if self.documents[i].0 == id {
                assert(self.ids()[i as int] == id);
                return Some(i);
            }
            i = i + 1;
        }
        proof {
            if self.ids().contains(id) {
                let k = choose|k: int| 0 <= k < self.ids().len() && self.ids()[k] == id;
                assert(self.docs()[k].0 == id);
            }
        }
        None
    }

    /// Adds a document under the id given, or else under the next free
    /// automatic id, which then advances. Returns the id used. An id that is
    /// already taken is refused, as is an automatic id once they run out.
    pub fn push(&mut self, document: Document, index: Option<i32>) -> (r: Result<i32, EngineError>)
        requires
            old(self).wf(),
            document.wf(),
        ensures
            final(self).wf(),
            final(self).schema() == old(self).schema(),
            final(self).file_name_spec() == old(self).file_name_spec(),
            ({
                let id = match index {
                    Some(i) => i,
                    None => old(self).next_id(),
                };
                let refused = old(self).ids().contains(id) || (index is None && old(self).next_id()
                    == i32::MAX);
                &&& r is Err <==> refused
                &&& refused ==> r->Err_0 == EngineError::IdentityConflict && final(self).docs()
                    == old(self).docs() && final(self).next_id() == old(self).next_id()
                &&& !refused ==> {
                    &&& r->Ok_0 == id
                    &&& final(self).docs() == old(self).docs().push((id, document))
                    &&& final(self).next_id() == if index is None {
                        (old(self).next_id() + 1) as i32
                    } else {
                        old(self).next_id()
                    }
                }
            }),
    {
        let id = match index {
            Some(i) => i,
            None => {
                if self.last_index == i32::MAX {
                    return Err(EngineError::IdentityConflict);
                }
                self.last_index
            },
        };
        if let Some(i) = self.find_doc(id) {
            proof {
                assert(self.ids()[i as int] == id);
            }
            return Err(EngineError::IdentityConflict);
        }
        self.documents.push((id, document));
        if index.is_none() {
            self.last_index = self.last_index + 1;
        }
        proof {
            assert forall|i: int| 0 <= i < old(self).docs().len() implies self.docs()[i].0 != id by {
                assert(old(self).ids()[i] == old(self).docs()[i].0);
            }
            assert(self.docs()[old(self).docs().len() as int] == (id, document));
        }
        Ok(id)
    }

    /// Deletes the document with the given id. The indices keep its postings
    /// until the next commit.
    pub fn remove(&mut self, document_id: i32) -> (r: Result<(), EngineError>)
        requires
            old(self).wf(),
        ensures
            final(self).wf(),
            final(self).schema() == old(self).schema(),
            final(self).next_id() == old(self).next_id(),
            final(self).file_name_spec() == old(self).file_name_spec(),
            r is Err <==> !old(self).ids().contains(document_id),
            r is Err ==> r->Err_0 == EngineError::NotFound && final(self).docs() == old(self).docs(),
            r is Ok ==> exists|i: int|
                0 <= i < old(self).docs().len() && old(self).docs()[i].0 == document_id
                    && final(self).docs() == old(self).docs().remove(i),
    {
        match self.find_doc(document_id) {
            Some(i) => {
                self.documents.remove(i);
                proof {
                    assert(self.docs() == old(self).docs().remove(i as int));
                    assert forall|a: int, b: int|
                        0 <= a < self.docs().len() && 0 <= b < self.docs().len() && a != b
                        implies self.docs()[a].0 != self.docs()[b].0 by {
                        let oa = if a < i { a } else { a + 1 };
                        let ob = if b < i { b } else { b + 1 };
                        assert(self.docs()[a] == old(self).docs()[oa]);
                        assert(self.docs()[b] == old(self).docs()[ob]);
                    }
                    assert forall|a: int| 0 <= a < self.docs().len() implies (#[trigger] self.docs()[a]).1.wf() by {
                        let oa = if a < i { a } else { a + 1 };
                        assert(self.docs()[a] == old(self).docs()[oa]);
                    }
                }
                Ok(())
            },
            None => Err(EngineError::NotFound),
        }
    }

    /// The document with the given id, if the collection holds one.
    pub fn get(&self, id: i32) -> (r: Option<&Document>)
        ensures
            r is Some <==> self.ids().contains(id),
            r is Some ==> exists|i: int|
                0 <= i < self.docs().len() && self.docs()[i].0 == id && self.docs()[i].1 == *r->0,
    {
        match self.find_doc(id) {
            Some(i) => Some(&self.documents[i].1),
            None => {
                None
            },
        }
    }

    /// The document with the given id, to change in place, if the collection
    /// holds one.
    pub fn get_mut(&mut self, id: i32) -> (r: Option<&mut Document>)
        ensures
            r is Some <==> old(self).ids().contains(id),
            r is Some ==> exists|i: int|
                0 <= i < old(self).docs().len() && old(self).docs()[i].0 == id && old(self).docs()[i].1
                    == *r->0 && final(self).docs() == old(self).docs().update(i, (id, *final(r->0))),
            r is None ==> *final(self) == *old(self),
            final(self).schema() == old(self).schema(),
            final(self).next_id() == old(self).next_id(),
            final(self).file_name_spec() == old(self).file_name_spec(),
    {
        match self.find_doc(id) {
            Some(i) => {
                let entry = &mut self.documents[i];
                Some(&mut entry.1)
            },
            None => None,
        }
    }

    /// The schema field with the given name, if one is declared.
    pub fn get_field(&self, name: &String) -> (r: Option<&Field>)
        ensures
            r is Some <==> self.field_names().contains(name@),
            r is Some ==> exists|i: int| 0 <= i < self.schema().len() && self.schema()[i] == *r->0,
            r is Some ==> r->0.name@ == name@,
    {
        match self.find_field(name.as_str()) {
            Some(i) => {
                proof {
                    assert(self.field_names()[i as int] == name@);
                }
                Some(&self.fields[i])
            },
            None => None,
        }
    }

    /// Rebuilds every field's index from the documents now stored: for each
    /// field in schema order and each document in order, the field's text is
    /// tokenized, the tokens are cached in the value, and each adds the
    /// document's id to its posting list. Postings from before are dropped, so
    /// committing twice gives the same indices as committing once.
    pub fn commit(&mut self)
        requires
            old(self).wf(),
        ensures
            final(self).wf(),
            final(self).next_id() == old(self).next_id(),
            final(self).file_name_spec() == old(self).file_name_spec(),
            final(self).docs().len() == old(self).docs().len(),
            forall|j: int|
                0 <= j < old(self).docs().len() ==> {
                    let o = #[trigger] old(self).docs()[j];
                    let n = final(self).docs()[j];
                    &&& n.0 == o.0
                    &&& n.1.model() == o.1.model()
                    &&& n.1.entries().len() == o.1.entries().len()
                    &&& forall|e: int|
                        0 <= e < o.1.entries().len() ==> (#[trigger] n.1.entries()[e]).1.tokens()
                            == committed_tokens(o.1.entries()[e], old(self).field_names())
                },
            final(self).schema().len() == old(self).schema().len(),
            forall|k: int|
                0 <= k < old(self).schema().len() ==> {
                    let o = #[trigger] old(self).schema()[k];
                    let n = final(self).schema()[k];
                    &&& n.name == o.name
                    &&& n.field_type == o.field_type
                    &&& n.inverted_index@ == built_index(old(self).docs(), o.name@)
                },
    {
        let ghost docs0 = old(self).docs();
        let ghost names = old(self).field_names();
        let nf = self.fields.len();
        let nd = self.documents.len();
        let mut i: usize = 0;
        while i < nf
            invariant
                i <= nf == old(self).schema().len() == names.len(),
                nd == docs0.len(),
                names == old(self).field_names(),
                docs0 == old(self).docs(),
                self.next_id() == old(self).next_id(),
                self.file_name_spec() == old(self).file_name_spec(),
                self.docs().len() == nd,
                forall|j: int|
                    0 <= j < nd ==> {
                        let o = #[trigger] docs0[j];
                        let n = self.docs()[j];
                        &&& n.0 == o.0
                        &&& n.1.wf()
                        &&& n.1.model() == o.1.model()
                        &&& n.1.entries().len() == o.1.entries().len()
                        &&& forall|e: int|
                            0 <= e < o.1.entries().len() ==> (#[trigger] n.1.entries()[e]).1.tokens()
                                == committed_tokens(o.1.entries()[e], names.subrange(0, i as int))
                    },
                self.schema().len() == nf,
                forall|k: int|
                    0 <= k < nf ==> {
                        let o = #[trigger] old(self).schema()[k];
                        let n = self.schema()[k];
                        &&& n.name == o.name
                        &&& n.field_type == o.field_type
                        &&& n.inverted_index.wf()
                        &&& n.inverted_index.name() == o.name@
                        &&& k < i ==> n.inverted_index@ == built_index(docs0, o.name@)
                    },
                old(self).wf(),
            decreases nf - i,
        {
            let name = self.fields[i].name.clone();
            let mut index = InvertedIndex::new(name.clone());
            proof {
                assert(docs0.subrange(0, 0) =~= Seq::<(i32, Document)>::empty());
                assert(names[i as int] == name@);
            }
            let ghost before = self.docs();
            let mut j: usize = 0;
            while j < nd
                invariant
                    i < nf == old(self).schema().len() == names.len(),
                    j <= nd == docs0.len(),
                    names == old(self).field_names(),
                    names[i as int] == name@,
                    docs0 == old(self).docs(),
                    self.next_id() == old(self).next_id(),
                    self.file_name_spec() == old(self).file_name_spec(),
                    self.docs().len() == nd,
                    before.len() == nd,
                    forall|jj: int|
                        0 <= jj < nd ==> {
                            let o = #[trigger] docs0[jj];
                            let n = self.docs()[jj];
                            &&& n.0 == o.0
                            &&& n.1.wf()
                            &&& n.1.model() == o.1.model()
                            &&& n.1.entries().len() == o.1.entries().len()
                            &&& forall|e: int|
                                0 <= e < o.1.entries().len() ==> (#[trigger] n.1.entries()[e]).1.tokens()
                                    == committed_tokens(
                                    o.1.entries()[e],
                                    names.subrange(0, if jj < j { i + 1 } else { i as int }),
                                )
                        },
                    self.schema().len() == nf,
                    forall|k: int|
                        0 <= k < nf ==> {
                            let o = #[trigger] old(self).schema()[k];
                            let n = self.schema()[k];
                            &&& n.name == o.name
                            &&& n.field_type == o.field_type
                            &&& n.inverted_index.wf()
                            &&& n.inverted_index.name() == o.name@
                            &&& k < i ==> n.inverted_index@ == built_index(docs0, o.name@)
                        },
                    index.wf(),
                    index.name() == name@,
                    index@ == built_index(docs0.subrange(0, j as int), name@),
                    old(self).wf(),
                decreases nd - j,
            {
                let ghost pre = self.docs();
                proof {
                    let o = docs0[j as int];
                    assert(pre[j as int].1.wf());
                }
                let entry = &mut self.documents[j];
                let id = entry.0;
                let ghost prev = entry.1;
                let toks = entry.1.process_field(name.as_str());
                proof {
                    let o = docs0[j as int];
                    prev.lemma_same_values(&o.1, name@);
                    assert(names.subrange(0, i + 1) =~= names.subrange(0, i as int).push(name@));
                    assert(self.docs() == pre.update(j as int, (id, self.docs()[j as int].1)));
                    let cur = self.docs()[j as int].1;
                    assert(cur.model() =~= o.1.model()) by {
                        assert forall|e: int| 0 <= e < cur.entries().len() implies cur.model()[e] == prev.model()[e] by {
                            assert(cur.entries()[e].0 == prev.entries()[e].0);
                        }
                        assert(cur.model() =~= prev.model());
                    }
                    assert forall|e: int| 0 <= e < o.1.entries().len() implies (#[trigger] cur.entries()[e]).1.tokens()
                        == committed_tokens(o.1.entries()[e], names.subrange(0, i + 1)) by {
                        assert(prev.model()[e] == o.1.model()[e]);
                        assert(prev.entries()[e].1.tokens() == committed_tokens(o.1.entries()[e], names.subrange(0, i as int)));
                        let oe = o.1.entries()[e];
                        let pe = prev.entries()[e];
                        assert(prev.model()[e] == (pe.0, pe.1.value()));
                        assert(o.1.model()[e] == (oe.0, oe.1.value()));
                        let ns = names.subrange(0, i as int);
                        let ns1 = names.subrange(0, i + 1);
                        if ns.contains(oe.0) {
                            let k = choose|k: int| 0 <= k < ns.len() && ns[k] == oe.0;
                            assert(ns1[k] == oe.0);
                        }
                        if ns1.contains(oe.0) && oe.0 != name@ {
                            let k = choose|k: int| 0 <= k < ns1.len() && ns1[k] == oe.0;
                            assert(k < i);
                            assert(ns[k] == oe.0);
                        }
                        if oe.0 == name@ {
                            assert(ns1[i as int] == name@);
                        }
                    }
                }
                match toks {
                    Some(ts) => {
                        index_tokens(&mut index, &ts, id);
                    },
                    None => {},
                }
                proof {
                    let sub = docs0.subrange(0, j + 1);
                    assert(sub.drop_last() =~= docs0.subrange(0, j as int));
                    assert(sub.last() == docs0[j as int]);
                    assert(add_postings(built_index(docs0.subrange(0, j as int), name@), id, Seq::empty())
                        == built_index(docs0.subrange(0, j as int), name@));
                }
                j = j + 1;
            }
            proof {
                assert(docs0.subrange(0, nd as int) =~= docs0);
            }
            let field = &mut self.fields[i];
            field.inverted_index = index;
            i = i + 1;
        }
        proof {
            assert(names.subrange(0, nf as int) =~= names);
            assert forall|a: int, b: int|
                0 <= a < self.docs().len() && 0 <= b < self.docs().len() && a != b
                implies self.docs()[a].0 != self.docs()[b].0 by {
                assert(self.docs()[a].0 == docs0[a].0);
                assert(self.docs()[b].0 == docs0[b].0);
            }
            assert forall|a: int| 0 <= a < self.docs().len() implies (#[trigger] self.docs()[a]).1.wf() by {
                assert(self.docs()[a].0 == docs0[a].0);
            }
            assert forall|a: int, b: int|
                0 <= a < self.schema().len() && 0 <= b < self.schema().len() && a != b
                implies self.schema()[a].name@ != self.schema()[b].name@ by {
                assert(self.schema()[a].name == old(self).schema()[a].name);
                assert(self.schema()[b].name == old(self).schema()[b].name);
            }
            assert forall|a: int| 0 <= a < self.schema().len() implies {
                &&& (#[trigger] self.schema()[a]).inverted_index.wf()
                &&& self.schema()[a].inverted_index.name() == self.schema()[a].name@
            } by {
                assert(self.schema()[a].name == old(self).schema()[a].name);
            }
        }
    }

    /// The schema fields, in declaration order.
    pub fn fields(&self) -> (r: &Vec<Field>)
        ensures
            r@ == self.schema(),
    {
        &self.fields
    }

    /// The documents with their ids, in the order they were pushed.
    pub fn iter(&self) -> (r: &Vec<(i32, Document)>)
        ensures
            r@ == self.docs(),
    {
        &self.documents
    }

    /// The number of documents.
    pub fn len(&self) -> (r: usize)
        ensures
            r == self.docs().len(),
    {
        self.documents.len()
    }

    /// Whether the collection holds no document.
    pub fn is_empty(&self) -> (r: bool)
        ensures
            r == (self.docs().len() == 0),
    {
        self.documents.len() == 0
    }
}

} // verus!
