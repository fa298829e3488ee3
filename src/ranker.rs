//! Per-field, per-term scoring: exact matches for scalar fields and strict
//! text, and the ingredients of BM25 for text.
use vstd::prelude::*;

use crate::collection::Collection;
use crate::document::Document;
use crate::field::{value_text, value_type, Field, FieldType, FieldValue, Value};
use crate::numtext::{bool_text, int_text, text_eq};
use crate::term::{terms_view, Term};

verus! {

/// The counts that a document's BM25 score for a term is computed from.
///
/// With `N = doc_count`, `n = docs_with_term`, `S = total_tokens`,
/// `f = freq`, `k1 = 1.2` and `b = 0.75`, the score is
/// `ln((N - n + 0.5) / (n + 0.5) + 1) * f * (k1 + 1) / (f + k1 * (1 - b + b * N / (S / N)))`.
#[derive(Clone, Copy, Debug, PartialEq, Eq, Structural)]
pub struct Bm25 {
    /// How often the term occurs in the document's field.
    pub freq: usize,
    /// How many documents the collection holds.
    pub doc_count: usize,
    /// How many documents of the collection hold the term in the field's
    /// cached tokens: the documents that committing lists in the term's
    /// postings, each counted once however often it holds the term.
    pub docs_with_term: usize,
    /// The tokens of the field over all documents.
    pub total_tokens: u128,
}

impl Bm25 {
    /// The inverse document frequency is the natural logarithm of
    /// `num / den`: `(N - n + 0.5) / (n + 0.5) + 1 = (2N + 2) / (2n + 1)`.
    pub open spec fn idf_ratio(self) -> (int, int) {
        (2 * self.doc_count + 2, 2 * self.docs_with_term + 1)
    }

    /// The term-frequency factor as `num / den`:
    /// `f (k1 + 1) / (f + k1 (1 - b + b N² / S)) = 44 S f / (20 S f + 6 S + 18 N²)`.
    pub open spec fn tf_ratio(self) -> (int, int) {
        let s = self.total_tokens as int;
        let f = self.freq as int;
        let n = self.doc_count as int;
        (44 * s * f, 20 * s * f + 6 * s + 18 * n * n)
    }
}

/// For the same idf and the same collection, a higher term frequency gives a
/// strictly higher term-frequency factor, which stays below `k1 + 1 = 11/5`:
/// the BM25 score grows with the frequency and saturates.
pub proof fn lemma_bm25_monotone(a: Bm25, b: Bm25)
    requires
        a.doc_count == b.doc_count,
        a.docs_with_term == b.docs_with_term,
        a.total_tokens == b.total_tokens,
        a.total_tokens > 0,
        a.freq < b.freq,
    ensures
        a.tf_ratio().1 > 0,
        b.tf_ratio().1 > 0,
        a.tf_ratio().0 * b.tf_ratio().1 < b.tf_ratio().0 * a.tf_ratio().1,
        5 * b.tf_ratio().0 < 11 * b.tf_ratio().1,
{
    let s = a.total_tokens as int;
    let n = a.doc_count as int;
    let f1 = a.freq as int;
    let f2 = b.freq as int;
    let c = 6 * s + 18 * n * n;
    assert(n * n >= 0) by (nonlinear_arith);
    assert(s * f1 >= 0 && s * f2 >= 0) by (nonlinear_arith)
        requires
            s > 0,
            f1 >= 0,
            f2 >= 0,
    ;
    assert(a.tf_ratio() == (44 * s * f1, 20 * s * f1 + c));
    assert(b.tf_ratio() == (44 * s * f2, 20 * s * f2 + c));
    assert((44 * s * f1) * (20 * s * f2 + c) < (44 * s * f2) * (20 * s * f1 + c)) by (nonlinear_arith)
        requires
            s > 0,
            f1 < f2,
            c > 0,
    ;
    assert(5 * (44 * s * f2) < 11 * (20 * s * f2 + c)) by (nonlinear_arith)
        requires
            c > 0,
    ;
}

/// Every BM25 rank counts a document that holds the term: the documents
/// holding the term are at least one and at most
/// the documents there are, so the idf ratio is above one and the idf
/// positive; and all ranks share the collection's counts.
pub proof fn lemma_bm25_ranks(docs: Seq<(i32, Document)>, name: Seq<char>, t: Seq<char>)
    requires
        docs.len() <= usize::MAX,
    ensures
        docs_containing(docs, name, t) <= docs.len(),
        forall|k: int|
            0 <= k < bm25_ranks(
                docs,
                name,
                t,
                docs.len() as usize,
                docs_containing(docs, name, t) as usize,
                token_total(docs, name) as u128,
            ).len() ==> {
                let r = #[trigger] bm25_ranks(
                    docs,
                    name,
                    t,
                    docs.len() as usize,
                    docs_containing(docs, name, t) as usize,
                    token_total(docs, name) as u128,
                )[k];
                &&& r.score is Bm25
                &&& r.score->Bm25_0.doc_count == docs.len()
                &&& r.score->Bm25_0.docs_with_term == docs_containing(docs, name, t)
                &&& 1 <= r.score->Bm25_0.docs_with_term <= r.score->Bm25_0.doc_count
                &&& r.score->Bm25_0.total_tokens == token_total(docs, name) as u128
                &&& r.score->Bm25_0.idf_ratio().0 > r.score->Bm25_0.idf_ratio().1
            },
{
    lemma_docs_containing_bound(docs, name, t);
    lemma_bm25_ranks_general(
        docs,
        name,
        t,
        docs.len() as usize,
        docs_containing(docs, name, t) as usize,
        token_total(docs, name) as u128,
    );
    if bm25_ranks(docs, name, t, docs.len() as usize, docs_containing(docs, name, t) as usize, token_total(docs, name) as u128).len() > 0 {
        lemma_some_doc_contains(docs, name, t, docs.len() as usize, docs_containing(docs, name, t) as usize, token_total(docs, name) as u128);
    }
}

proof fn lemma_docs_containing_bound(docs: Seq<(i32, Document)>, name: Seq<char>, t: Seq<char>)
    ensures
        docs_containing(docs, name, t) <= docs.len(),
    decreases docs.len(),
{
    if docs.len() > 0 {
        lemma_docs_containing_bound(docs.drop_last(), name, t);
    }
}

proof fn lemma_some_doc_contains(
    docs: Seq<(i32, Document)>,
    name: Seq<char>,
    t: Seq<char>,
    n: usize,
    m: usize,
    total: u128,
)
    requires
        bm25_ranks(docs, name, t, n, m, total).len() > 0,
    ensures
        docs_containing(docs, name, t) >= 1,
    decreases docs.len(),
{
    let prev = bm25_ranks(docs.drop_last(), name, t, n, m, total);
    if prev.len() > 0 {
        lemma_some_doc_contains(docs.drop_last(), name, t, n, m, total);
    }
}

proof fn lemma_bm25_ranks_general(
    docs: Seq<(i32, Document)>,
    name: Seq<char>,
    t: Seq<char>,
    n: usize,
    m: usize,
    total: u128,
)
    ensures
        forall|k: int|
            0 <= k < bm25_ranks(docs, name, t, n, m, total).len() ==> {
                let r = #[trigger] bm25_ranks(docs, name, t, n, m, total)[k];
                &&& r.score is Bm25
                &&& r.score->Bm25_0.doc_count == n
                &&& r.score->Bm25_0.docs_with_term == m
                &&& r.score->Bm25_0.total_tokens == total
            },
    decreases docs.len(),
{
    if docs.len() > 0 {
        lemma_bm25_ranks_general(docs.drop_last(), name, t, n, m, total);
        let prev = bm25_ranks(docs.drop_last(), name, t, n, m, total);
        let cur = bm25_ranks(docs, name, t, n, m, total);
        assert forall|k: int| 0 <= k < cur.len() implies {
            let r = #[trigger] cur[k];
            &&& r.score is Bm25
            &&& r.score->Bm25_0.doc_count == n
            &&& r.score->Bm25_0.docs_with_term == m
            &&& r.score->Bm25_0.total_tokens == total
        } by {
            if k < prev.len() {
                assert(cur[k] == prev[k]);
            }
        }
    }
}

/// Exact matching: a document's id stands in the ranks exactly where its
/// value in the field is of the field's type and has the term as its text,
/// and then with an exact score and nothing else.
pub proof fn lemma_exact_ranks(docs: Seq<(i32, Document)>, name: Seq<char>, kind: FieldType, t: Seq<char>)
    requires
        forall|i: int, j: int| 0 <= i < docs.len() && 0 <= j < docs.len() && i != j ==> docs[i].0 != docs[j].0,
    ensures
        forall|k: int| 0 <= k < exact_ranks(docs, name, kind, t).len() ==> (#[trigger] exact_ranks(docs, name, kind, t)[k]).score == Score::Exact,
        forall|j: int| 0 <= j < docs.len() ==> ((exists|k: int| 0 <= k < exact_ranks(docs, name, kind, t).len() && exact_ranks(docs, name, kind, t)[k].id == (#[trigger] docs[j]).0)
            <==> (docs[j].1.has(name) && exact_match(kind, docs[j].1.value_of(name).value(), t))),
    decreases docs.len(),
{
    if docs.len() > 0 {
        let d = docs.drop_last();
        lemma_exact_ranks(d, name, kind, t);
        let prev = exact_ranks(d, name, kind, t);
        let cur = exact_ranks(docs, name, kind, t);
        let last = docs.last();
        assert forall|j: int| 0 <= j < docs.len() implies ((exists|k: int| 0 <= k < cur.len() && cur[k].id == (#[trigger] docs[j]).0)
            <==> (docs[j].1.has(name) && exact_match(kind, docs[j].1.value_of(name).value(), t))) by {
            if j < docs.len() - 1 {
                assert(d[j] == docs[j]);
                if exists|k: int| 0 <= k < cur.len() && cur[k].id == docs[j].0 {
                    let k = choose|k: int| 0 <= k < cur.len() && cur[k].id == docs[j].0;
                    if k < prev.len() {
                        assert(cur[k] == prev[k]);
                    } else {
                        assert(cur[k].id == last.0);
                        assert(docs[docs.len() - 1].0 == last.0);
                    }
                }
                if exists|k: int| 0 <= k < prev.len() && prev[k].id == d[j].0 {
                    let k = choose|k: int| 0 <= k < prev.len() && prev[k].id == d[j].0;
                    assert(cur[k] == prev[k]);
                }
            } else {
                if exists|k: int| 0 <= k < prev.len() && prev[k].id == last.0 {
                    let k = choose|k: int| 0 <= k < prev.len() && prev[k].id == last.0;
                    assert(false) by {
                        assert forall|jj: int| 0 <= jj < d.len() implies d[jj].0 != last.0 by {
                            assert(d[jj] == docs[jj]);
                        }
                        lemma_exact_ranks_ids(d, name, kind, t, k);
                    }
                }
                if docs[j].1.has(name) && exact_match(kind, docs[j].1.value_of(name).value(), t) {
                    assert(cur[prev.len() as int].id == docs[j].0);
                }
                if exists|k: int| 0 <= k < cur.len() && cur[k].id == docs[j].0 {
                    let k = choose|k: int| 0 <= k < cur.len() && cur[k].id == docs[j].0;
                    if k < prev.len() {
                        assert(cur[k] == prev[k]);
                    }
                }
            }
        }
    }
}

/// Every id in the exact ranks is the id of one of the documents.
proof fn lemma_exact_ranks_ids(docs: Seq<(i32, Document)>, name: Seq<char>, kind: FieldType, t: Seq<char>, k: int)
    requires
        0 <= k < exact_ranks(docs, name, kind, t).len(),
    ensures
        exists|j: int| 0 <= j < docs.len() && docs[j].0 == exact_ranks(docs, name, kind, t)[k].id,
    decreases docs.len(),
{
    let d = docs.drop_last();
    let prev = exact_ranks(d, name, kind, t);
    if k < prev.len() {
        lemma_exact_ranks_ids(d, name, kind, t, k);
        let j = choose|j: int| 0 <= j < d.len() && d[j].0 == prev[k].id;
        assert(docs[j] == d[j]);
    } else {
        assert(docs[docs.len() - 1].0 == exact_ranks(docs, name, kind, t)[k].id);
    }
}

/// A document's score for one term in one field.
#[derive(Clone, Copy, Debug, PartialEq, Eq, Structural)]
pub enum Score {
    /// An exact match, worth 1.
    Exact,
    /// A BM25 score, given by its counts.
    Bm25(Bm25),
}

/// A document id with its score.
#[derive(Clone, Copy, Debug, PartialEq, Eq, Structural)]
pub struct Rank {
    pub id: i32,
    pub score: Score,
}

/// Whether a stored value matches a query term exactly, for a field of the
/// given type: the value is of that type and its text is the term.
pub open spec fn exact_match(kind: FieldType, v: Value, t: Seq<char>) -> bool {
    value_type(v) == kind && value_text(v) == t
}

/// The documents whose field `name` matches `t` exactly, in order.
pub open spec fn exact_ranks(
    docs: Seq<(i32, Document)>,
    name: Seq<char>,
    kind: FieldType,
    t: Seq<char>,
) -> Seq<Rank>
    decreases docs.len(),
{
    if docs.len() == 0 {
        Seq::empty()
    } else {
        let d = docs.last();
        let prev = exact_ranks(docs.drop_last(), name, kind, t);
        if d.1.has(name) && exact_match(kind, d.1.value_of(name).value(), t) {
            prev.push(Rank { id: d.0, score: Score::Exact })
        } else {
            prev
        }
    }
}

/// The tokens cached in a document's field `name`.
pub open spec fn cached(d: Document, name: Seq<char>) -> Option<Seq<Seq<char>>> {
    if d.has(name) {
        d.value_of(name).tokens()
    } else {
        None
    }
}

/// How often `t` occurs in `ts`.
pub open spec fn count_of(ts: Seq<Seq<char>>, t: Seq<char>) -> nat
    decreases ts.len(),
{
    if ts.len() == 0 {
        0
    } else {
        count_of(ts.drop_last(), t) + if ts.last() == t {
            1nat
        } else {
            0nat
        }
    }
}

/// The cached tokens of the field `name` over all documents.
pub open spec fn token_total(docs: Seq<(i32, Document)>, name: Seq<char>) -> nat
    decreases docs.len(),
{
    if docs.len() == 0 {
        0
    } else {
        token_total(docs.drop_last(), name) + match cached(docs.last().1, name) {
            Some(ts) => ts.len(),
            None => 0,
        }
    }
}

/// How many documents hold `t` in the cached tokens of the field `name`.
pub open spec fn docs_containing(docs: Seq<(i32, Document)>, name: Seq<char>, t: Seq<char>) -> nat
    decreases docs.len(),
{
    if docs.len() == 0 {
        0
    } else {
        docs_containing(docs.drop_last(), name, t) + match cached(docs.last().1, name) {
            Some(ts) => if count_of(ts, t) > 0 {
                1nat
            } else {
                0nat
            },
            None => 0nat,
        }
    }
}

/// The BM25 ranks of the documents, in order: one for each document whose
/// cached tokens hold the term.
pub open spec fn bm25_ranks(
    docs: Seq<(i32, Document)>,
    name: Seq<char>,
    t: Seq<char>,
    doc_count: usize,
    docs_with_term: usize,
    total: u128,
) -> Seq<Rank>
    decreases docs.len(),
{
    if docs.len() == 0 {
        Seq::empty()
    } else {
        let d = docs.last();
        let prev = bm25_ranks(docs.drop_last(), name, t, doc_count, docs_with_term, total);
        match cached(d.1, name) {
            Some(ts) => if count_of(ts, t) > 0 {
                prev.push(
                    Rank {
                        id: d.0,
                        score: Score::Bm25(
                            Bm25 {
                                freq: count_of(ts, t) as usize,
                                doc_count,
                                docs_with_term,
                                total_tokens: total,
                            },
                        ),
                    },
                )
            } else {
                prev
            },
            None => prev,
        }
    }
}

/// The ranks of a text field: exact matches in strict mode, else BM25.
pub open spec fn string_ranks(c: &Collection, field: &Field, t: Seq<char>, strict: bool) -> Seq<Rank> {
    if strict {
        exact_ranks(c.docs(), field.name@, FieldType::String, t)
    } else {
        bm25_ranks(
            c.docs(),
            field.name@,
            t,
            c.docs().len() as usize,
            docs_containing(c.docs(), field.name@, t) as usize,
            token_total(c.docs(), field.name@) as u128,
        )
    }
}

/// The ranks of the documents for `t` in `field`, by its declared type.
pub open spec fn field_ranks(c: &Collection, field: &Field, t: Seq<char>, strict: bool) -> Seq<Rank> {
    match field.field_type {
        FieldType::Int => exact_ranks(c.docs(), field.name@, FieldType::Int, t),
        FieldType::Bool => exact_ranks(c.docs(), field.name@, FieldType::Bool, t),
        FieldType::String => string_ranks(c, field, t, strict),
    }
}

/// How often `term` occurs in `ts`.
fn count_term(ts: &Vec<Term>, term: &Term) -> (r: usize)
    ensures
        r == count_of(terms_view(ts@), term@),
{
    let mut k: usize = 0;
    let mut n: usize = 0;
    while k < ts.len()
        invariant
            k <= ts@.len(),
            n <= k,
            n == count_of(terms_view(ts@).subrange(0, k as int), term@),
        decreases ts@.len() - k,
    {
        proof {
            let s = terms_view(ts@).subrange(0, k + 1);
            assert(s.drop_last() =~= terms_view(ts@).subrange(0, k as int));
        }
        if ts[k].same(term) {
            n = n + 1;
        }
        k = k + 1;
    }
    assert(terms_view(ts@).subrange(0, k as int) =~= terms_view(ts@));
    n
}

/// The scoring functions, one for each type of field.
pub struct Ranker {}

impl Ranker {
    fn rank_exact(term: &Term, collection: &Collection, field: &Field, kind: FieldType) -> (r: Vec<Rank>)
        requires
            collection.wf(),
        ensures
            r@ == exact_ranks(collection.docs(), field.name@, kind, term@),
    {
        let docs = collection.iter();
        let mut ranks: Vec<Rank> = Vec::new();
        let mut j: usize = 0;
        while j < docs.len()
            invariant
                j <= docs@.len(),
                docs@ == collection.docs(),
                collection.wf(),
                ranks@ == exact_ranks(docs@.subrange(0, j as int), field.name@, kind, term@),
            decreases docs@.len() - j,
        {
            let id = docs[j].0;
            let doc = &docs[j].1;
            proof {
                let s = docs@.subrange(0, j + 1);
                assert(s.drop_last() =~= docs@.subrange(0, j as int));
                assert(s.last() == docs@[j as int]);
                assert(doc.wf());
            }
            match doc.get(field.name.as_str()) {
                Some(v) => {
                    let hit = match v {
                        FieldValue::Int(i) => {
                            kind == FieldType::Int && text_eq(crate::numtext::i64_to_text(*i).as_str(), term.value.as_str())
                        },
                        FieldValue::Bool(b) => {
                            kind == FieldType::Bool && text_eq(crate::numtext::bool_to_text(*b).as_str(), term.value.as_str())
                        },
                        FieldValue::String(s, _) => {
                            kind == FieldType::String && text_eq(s.as_str(), term.value.as_str())
                        },
                    };
                    if hit {
                        ranks.push(Rank { id, score: Score::Exact });
                    }
                },
                None => {},
            }
            j = j + 1;
        }
        assert(docs@.subrange(0, j as int) =~= docs@);
        ranks
    }

    /// The cached tokens of `field` over all documents.
    fn token_count(collection: &Collection, field: &Field) -> (r: u128)
        requires
            collection.wf(),
        ensures
            r == token_total(collection.docs(), field.name@),
    {
        let docs = collection.iter();
        let mut total: u128 = 0;
        let mut j: usize = 0;
        while j < docs.len()
            invariant
                j <= docs@.len(),
                docs@ == collection.docs(),
                collection.wf(),
                total == token_total(docs@.subrange(0, j as int), field.name@),
                total <= j * (usize::MAX as int),
            decreases docs@.len() - j,
        {
            let doc = &docs[j].1;
            proof {
                let s = docs@.subrange(0, j + 1);
                assert(s.drop_last() =~= docs@.subrange(0, j as int));
                assert(s.last() == docs@[j as int]);
                assert(doc.wf());
            }
            let len: usize = match doc.get(field.name.as_str()) {
                Some(FieldValue::String(_, Some(ts))) => ts.len(),
                _ => 0,
            };
            proof {
                assert(total + len <= (j + 1) * (usize::MAX as int)) by (nonlinear_arith)
                    requires
                        total <= j * (usize::MAX as int),
                        len <= usize::MAX,
                ;
                assert((j + 1) * (usize::MAX as int) <= (usize::MAX as int) * (usize::MAX as int)) by (nonlinear_arith)
                    requires
                        j + 1 <= usize::MAX,
                ;
                assert((usize::MAX as int) * (usize::MAX as int) < u128::MAX);
            }
            total = total + len as u128;
            j = j + 1;
        }
        assert(docs@.subrange(0, j as int) =~= docs@);
        total
    }

    /// How many documents hold `term` in the cached tokens of `field`.
    fn doc_frequency(term: &Term, collection: &Collection, field: &Field) -> (r: usize)
        requires
            collection.wf(),
        ensures
            r == docs_containing(collection.docs(), field.name@, term@),
    {
        let docs = collection.iter();
        let mut n: usize = 0;
        let mut j: usize = 0;
        while j < docs.len()
            invariant
                j <= docs@.len(),
                docs@ == collection.docs(),
                collection.wf(),
                n <= j,
                n == docs_containing(docs@.subrange(0, j as int), field.name@, term@),
            decreases docs@.len() - j,
        {
            let doc = &docs[j].1;
            proof {
                let s = docs@.subrange(0, j + 1);
                assert(s.drop_last() =~= docs@.subrange(0, j as int));
                assert(s.last() == docs@[j as int]);
                assert(doc.wf());
            }
            match doc.get(field.name.as_str()) {
                Some(FieldValue::String(_, Some(ts))) => {
                    if count_term(ts, term) > 0 {
                        n = n + 1;
                    }
                },
                _ => {},
            }
            j = j + 1;
        }
        assert(docs@.subrange(0, j as int) =~= docs@);
        n
    }

    /// The BM25 ranks of the documents for `term` in the text field `field`.
    fn bm25(term: &Term, collection: &Collection, field: &Field) -> (r: Vec<Rank>)
        requires
            collection.wf(),
        ensures
            r@ == bm25_ranks(
                collection.docs(),
                field.name@,
                term@,
                collection.docs().len() as usize,
                docs_containing(collection.docs(), field.name@, term@) as usize,
                token_total(collection.docs(), field.name@) as u128,
            ),
    {
        let n = Self::doc_frequency(term, collection, field);
        let total = Self::token_count(collection, field);
        let doc_count = collection.len();
        let docs = collection.iter();
        let mut ranks: Vec<Rank> = Vec::new();
        let mut j: usize = 0;
        while j < docs.len()
            invariant
                j <= docs@.len(),
                docs@ == collection.docs(),
                doc_count == docs@.len(),
                collection.wf(),
                ranks@ == bm25_ranks(docs@.subrange(0, j as int), field.name@, term@, doc_count, n, total),
            decreases docs@.len() - j,
        {
            let id = docs[j].0;
            let doc = &docs[j].1;
            proof {
                let s = docs@.subrange(0, j + 1);
                assert(s.drop_last() =~= docs@.subrange(0, j as int));
                assert(s.last() == docs@[j as int]);
                assert(doc.wf());
            }
            match doc.get(field.name.as_str()) {
                Some(FieldValue::String(_, Some(ts))) => {
                    let freq = count_term(ts, term);
                    if freq > 0 {
                        ranks.push(
                            Rank {
                                id,
                                score: Score::Bm25(
                                    Bm25 { freq, doc_count, docs_with_term: n, total_tokens: total },
                                ),
                            },
                        );
                    }
                },
                _ => {},
            }
            j = j + 1;
        }
        assert(docs@.subrange(0, j as int) =~= docs@);
        ranks
    }

    /// For text fields: in strict mode the documents whose text is exactly
    /// `term`, with exact scores; otherwise the BM25 ranks.
    pub fn rank_string(term: &Term, strict: bool, collection: &Collection, field: &Field) -> (r: Vec<Rank>)
        requires
            collection.wf(),
        ensures
            r@ == string_ranks(collection, field, term@, strict),
    {
        if strict {
            Self::rank_exact(term, collection, field, FieldType::String)
        } else {
            Self::bm25(term, collection, field)
        }
    }

    /// The ranks of the documents for `term` in `field`, by the field's
    /// declared type.
    pub fn rank(term: &Term, strict: bool, collection: &Collection, field: &Field) -> (r: Vec<Rank>)
        requires
            collection.wf(),
        ensures
            r@ == field_ranks(collection, field, term@, strict),
    {
        match field.field_type {
            FieldType::Int => Self::rank_int(term, collection, field),
            FieldType::Bool => Self::rank_bool(term, collection, field),
            FieldType::String => Self::rank_string(term, strict, collection, field),
        }
    }

    /// The documents whose integer value in `field` has `term` as its text,
    /// each with an exact score, in document order.
    pub fn rank_int(term: &Term, collection: &Collection, field: &Field) -> (r: Vec<Rank>)
        requires
            collection.wf(),
        ensures
            r@ == exact_ranks(collection.docs(), field.name@, FieldType::Int, term@),
    {
        Self::rank_exact(term, collection, field, FieldType::Int)
    }

    /// The documents whose boolean value in `field` has `term` as its text,
    /// each with an exact score, in document order.
    pub fn rank_bool(term: &Term, collection: &Collection, field: &Field) -> (r: Vec<Rank>)
        requires
            collection.wf(),
        ensures
            r@ == exact_ranks(collection.docs(), field.name@, FieldType::Bool, term@),
    {
        Self::rank_exact(term, collection, field, FieldType::Bool)
    }
}

} // verus!
