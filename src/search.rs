//! Query evaluation: tokenize the query, score each term in each selected
//! field, gather the scores per document, and order the totals.
use vstd::prelude::*;

use crate::collection::Collection;
use crate::error::EngineError;
use crate::field::Field;
use crate::ranker::{field_ranks, Rank, Ranker, Score};
use crate::term::{terms_view, Term};
use crate::tokenizer::{token_texts, tokenize};

verus! {

/// A document that some term matched, with the scores it received, in the
/// order the terms and fields were scored.
#[derive(Debug)]
pub struct Hit {
    pub id: i32,
    pub scores: Vec<Score>,
}

pub open spec fn hits_view(hs: Seq<Hit>) -> Seq<(i32, Seq<Score>)> {
    hs.map_values(|h: Hit| (h.id, h.scores@))
}

/// `r` added to the hits: its score appended to its document's hit, or a new
/// hit for the document after the others.
pub open spec fn add_rank(hs: Seq<(i32, Seq<Score>)>, r: Rank) -> Seq<(i32, Seq<Score>)> {
    if exists|i: int| 0 <= i < hs.len() && hs[i].0 == r.id {
        let i = choose|i: int| 0 <= i < hs.len() && hs[i].0 == r.id;
        hs.update(i, (r.id, hs[i].1.push(r.score)))
    } else {
        hs.push((r.id, seq![r.score]))
    }
}

pub open spec fn add_ranks(hs: Seq<(i32, Seq<Score>)>, rs: Seq<Rank>) -> Seq<(i32, Seq<Score>)>
    decreases rs.len(),
{
    if rs.len() == 0 {
        hs
    } else {
        add_rank(add_ranks(hs, rs.drop_last()), rs.last())
    }
}

/// The ranks of one term in each of the fields, field by field.
pub open spec fn term_ranks(c: &Collection, t: Seq<char>, fields: Seq<Field>, strict: bool) -> Seq<Rank>
    decreases fields.len(),
{
    if fields.len() == 0 {
        Seq::empty()
    } else {
        term_ranks(c, t, fields.drop_last(), strict) + field_ranks(c, &fields.last(), t, strict)
    }
}

/// The ranks of each term in each of the fields, term by term.
pub open spec fn query_ranks(c: &Collection, terms: Seq<Seq<char>>, fields: Seq<Field>, strict: bool) -> Seq<Rank>
    decreases terms.len(),
{
    if terms.len() == 0 {
        Seq::empty()
    } else {
        query_ranks(c, terms.drop_last(), fields, strict) + term_ranks(c, terms.last(), fields, strict)
    }
}

/// The fields a search goes through: all of the schema, or the named ones in
/// the order named, where the schema declares each.
pub open spec fn selected(c: &Collection, names: Option<Seq<Seq<char>>>) -> Option<Seq<Field>> {
    match names {
        None => Some(c.schema()),
        Some(ns) => if forall|k: int| 0 <= k < ns.len() ==> c.field_names().contains(#[trigger] ns[k]) {
            Some(ns.map_values(|n: Seq<char>| c.field_named(n)))
        } else {
            None
        },
    }
}

/// The names in an optional list of field names.
pub open spec fn names_of(fields: Option<Vec<String>>) -> Option<Seq<Seq<char>>> {
    match fields {
        Some(v) => Some(v@.map_values(|s: String| s@)),
        None => None,
    }
}

pub open spec fn ids_unique(hs: Seq<(i32, Seq<Score>)>) -> bool {
    forall|i: int, j: int| 0 <= i < hs.len() && 0 <= j < hs.len() && i != j ==> hs[i].0 != hs[j].0
}

pub proof fn lemma_add_ranks_append(hs: Seq<(i32, Seq<Score>)>, a: Seq<Rank>, b: Seq<Rank>)
    ensures
        add_ranks(hs, a + b) == add_ranks(add_ranks(hs, a), b),
    decreases b.len(),
{
    if b.len() == 0 {
        assert(a + b =~= a);
    } else {
        lemma_add_ranks_append(hs, a, b.drop_last());
        assert((a + b).drop_last() =~= a + b.drop_last());
        assert((a + b).last() == b.last());
    }
}

/// Adds one rank to the hits.
fn add_hit(hits: &mut Vec<Hit>, r: Rank)
    requires
        ids_unique(hits_view(old(hits)@)),
    ensures
        ids_unique(hits_view(final(hits)@)),
        hits_view(final(hits)@) == add_rank(hits_view(old(hits)@), r),
{
    let ghost hv = hits_view(hits@);
    let mut i: usize = 0;
    while i < hits.len()
        invariant
            i <= hits@.len(),
            hv == hits_view(old(hits)@),
            hits@ == old(hits)@,
            ids_unique(hv),
            forall|k: int| 0 <= k < i ==> hits@[k].id != r.id,
        decreases hits@.len() - i,
    {
        if hits[i].id == r.id {
            proof {
                assert(hv[i as int].0 == r.id);
                let j = choose|j: int| 0 <= j < hv.len() && hv[j].0 == r.id;
                assert(hv[j].0 == hits@[j].id);
            }
            let h = &mut hits[i];
            h.scores.push(r.score);
            proof {
                let j = choose|j: int| 0 <= j < hv.len() && hv[j].0 == r.id;
                assert(j == i);
                assert(hits@.len() == hv.len());
                assert forall|k: int| 0 <= k < hv.len() implies hits_view(hits@)[k] == add_rank(hv, r)[k] by {
                    if k != i {
                        assert(hits@[k] == old(hits)@[k]);
                    }
                }
                assert(hits_view(hits@) =~= add_rank(hv, r));
                let nv = hits_view(hits@);
                assert forall|a: int, b: int| 0 <= a < nv.len() && 0 <= b < nv.len() && a != b implies nv[a].0 != nv[b].0 by {
                    assert(nv[a].0 == hv[a].0 && nv[b].0 == hv[b].0);
                }
            }
            return;
        }
        i = i + 1;
    }
    proof {
        if exists|j: int| 0 <= j < hv.len() && hv[j].0 == r.id {
            let j = choose|j: int| 0 <= j < hv.len() && hv[j].0 == r.id;
            assert(hv[j].0 == hits@[j].id);
        }
    }
    hits.push(Hit { id: r.id, scores: vec![r.score] });
    proof {
        assert forall|k: int| 0 <= k < hits@.len() implies hits_view(hits@)[k] == add_rank(hv, r)[k] by {
            if k < hv.len() {
                assert(hits@[k] == old(hits)@[k]);
            }
        }
        assert(hits_view(hits@) =~= add_rank(hv, r));
        let nv = hits_view(hits@);
        assert forall|a: int, b: int| 0 <= a < nv.len() && 0 <= b < nv.len() && a != b implies nv[a].0 != nv[b].0 by {
            if a < hv.len() && b < hv.len() {
                assert(nv[a] == hv[a] && nv[b] == hv[b]);
            } else if a < hv.len() {
                assert(nv[a].0 == hits@[a].id);
            } else {
                assert(nv[b].0 == hits@[b].id);
            }
        }
    }
}

/// Whether `a` ranks before `b`: a higher key first, then a lower id.
pub open spec fn before(a: (i32, i64), b: (i32, i64)) -> bool {
    a.1 > b.1 || (a.1 == b.1 && a.0 < b.0)
}

/// `x` inserted into `s` after the entries that rank before it.
pub open spec fn insert_ranked(s: Seq<(i32, i64)>, x: (i32, i64)) -> Seq<(i32, i64)>
    decreases s.len(),
{
    if s.len() == 0 {
        seq![x]
    } else if before(s.last(), x) {
        s.push(x)
    } else {
        insert_ranked(s.drop_last(), x).push(s.last())
    }
}

/// The entries of `s` in rank order.
pub open spec fn ranked(s: Seq<(i32, i64)>) -> Seq<(i32, i64)>
    decreases s.len(),
{
    if s.len() == 0 {
        Seq::empty()
    } else {
        insert_ranked(ranked(s.drop_last()), s.last())
    }
}

/// How many results a search returns: `max`, or 10 when not given, and no
/// more than there are.
pub open spec fn result_count(len: nat, max: Option<usize>) -> nat {
    let m = match max {
        Some(m) => m as nat,
        None => 10,
    };
    if m < len {
        m
    } else {
        len
    }
}

pub open spec fn sorted_by_rank(s: Seq<(i32, i64)>) -> bool {
    forall|i: int, j: int| 0 <= i < j < s.len() ==> before(s[i], s[j])
}

pub open spec fn distinct_ids(s: Seq<(i32, i64)>) -> bool {
    forall|i: int, j: int| 0 <= i < s.len() && 0 <= j < s.len() && i != j ==> s[i].0 != s[j].0
}

proof fn lemma_insert_ranked(s: Seq<(i32, i64)>, x: (i32, i64))
    ensures
        insert_ranked(s, x).len() == s.len() + 1,
        insert_ranked(s, x).to_multiset() == s.to_multiset().insert(x),
        sorted_by_rank(s) && (forall|i: int| 0 <= i < s.len() ==> s[i].0 != x.0) ==> sorted_by_rank(
            insert_ranked(s, x),
        ),
    decreases s.len(),
{
    broadcast use vstd::seq_lib::group_to_multiset_ensures;
    if s.len() == 0 {
        assert(seq![x] =~= Seq::<(i32, i64)>::empty().push(x));
    } else if before(s.last(), x) {
        assert(s.drop_last().push(s.last()) =~= s);
        if sorted_by_rank(s) {
            let w = s.push(x);
            assert forall|i: int, j: int| 0 <= i < j < w.len() implies before(w[i], w[j]) by {
                if j == s.len() && i < s.len() - 1 {
                    assert(before(s[i], s[s.len() - 1]));
                }
            }
        }
    } else {
        let t = s.drop_last();
        lemma_insert_ranked(t, x);
        assert(t.push(s.last()) =~= s);
        let u = insert_ranked(t, x);
        if sorted_by_rank(s) && (forall|i: int| 0 <= i < s.len() ==> s[i].0 != x.0) {
            assert(forall|i: int| 0 <= i < t.len() ==> t[i].0 != x.0 && t[i] == s[i]);
            assert(sorted_by_rank(t));
            assert forall|i: int| 0 <= i < u.len() implies before(#[trigger] u[i], s.last()) by {
                assert(u.to_multiset().count(u[i]) > 0);
                if u[i] != x {
                    assert(t.to_multiset().count(u[i]) > 0);
                    assert(t.contains(u[i]));
                    let k = choose|k: int| 0 <= k < t.len() && t[k] == u[i];
                    assert(before(s[k], s[s.len() - 1]));
                } else {
                    assert(s[s.len() - 1].0 != x.0);
                }
            }
            assert(sorted_by_rank(u));
            let w = u.push(s.last());
            assert forall|i: int, j: int| 0 <= i < j < w.len() implies before(w[i], w[j]) by {
                if j < u.len() {
                    assert(w[i] == u[i] && w[j] == u[j]);
                } else {
                    assert(w[i] == u[i]);
                }
            }
        }
    }
}

/// The ranking is a rearrangement of the entries, in rank order where their
/// ids are distinct: so it is the one such rearrangement, the same on every
/// call.
pub proof fn lemma_ranked(s: Seq<(i32, i64)>)
    ensures
        ranked(s).len() == s.len(),
        ranked(s).to_multiset() == s.to_multiset(),
        distinct_ids(s) ==> sorted_by_rank(ranked(s)),
    decreases s.len(),
{
    broadcast use vstd::seq_lib::group_to_multiset_ensures;
    if s.len() > 0 {
        let t = s.drop_last();
        lemma_ranked(t);
        lemma_insert_ranked(ranked(t), s.last());
        assert(t.push(s.last()) =~= s);
        if distinct_ids(s) {
            assert(distinct_ids(t)) by {
                assert forall|i: int, j: int| 0 <= i < t.len() && 0 <= j < t.len() && i != j implies t[i].0 != t[j].0 by {
                    assert(t[i] == s[i] && t[j] == s[j]);
                }
            }
            let r = ranked(t);
            assert forall|i: int| 0 <= i < r.len() implies r[i].0 != s.last().0 by {
                assert(r.to_multiset().count(r[i]) > 0);
                assert(t.to_multiset().count(r[i]) > 0);
                assert(t.contains(r[i]));
                let k = choose|k: int| 0 <= k < t.len() && t[k] == r[i];
                assert(s[k] == t[k]);
            }
        }
    }
}

fn ranks_before(a: (i32, i64), b: (i32, i64)) -> (r: bool)
    ensures
        r == before(a, b),
{
    a.1 > b.1 || (a.1 == b.1 && a.0 < b.0)
}

fn insert_sorted(v: &mut Vec<(i32, i64)>, x: (i32, i64))
    ensures
        final(v)@ == insert_ranked(old(v)@, x),
{
    let ghost s = v@;
    let mut i: usize = v.len();
    assert(s.subrange(0, i as int) =~= s);
    assert(s.subrange(i as int, s.len() as int) =~= Seq::<(i32, i64)>::empty());
    while i > 0 && !ranks_before(v[i - 1], x)
        invariant
            i <= s.len(),
            v@ == s,
            insert_ranked(s, x) == insert_ranked(s.subrange(0, i as int), x) + s.subrange(
                i as int,
                s.len() as int,
            ),
        decreases i,
    {
        let ghost p = s.subrange(0, i as int);
        assert(p.drop_last() =~= s.subrange(0, i - 1));
        assert(p.last() == s[i - 1]);
        assert(insert_ranked(p.drop_last(), x).push(p.last()) + s.subrange(i as int, s.len() as int)
            =~= insert_ranked(s.subrange(0, i - 1), x) + s.subrange(i - 1, s.len() as int));
        i = i - 1;
    }
    v.insert(i, x);
    proof {
        let p = s.subrange(0, i as int);
        if i == 0 {
            assert(insert_ranked(p, x) == seq![x]);
        } else {
            assert(p.last() == s[i - 1]);
            assert(insert_ranked(p, x) == p.push(x));
        }
        assert(v@ =~= insert_ranked(p, x) + s.subrange(i as int, s.len() as int));
    }
}

/// Orders scored documents by key, highest first, and by id where keys tie,
/// and keeps the first `max` of them, 10 when `max` is not given.
pub fn rank_top(scored: Vec<(i32, i64)>, max: Option<usize>) -> (r: Vec<(i32, i64)>)
    ensures
        r@ == ranked(scored@).subrange(0, result_count(scored@.len(), max) as int),
        r@.len() == result_count(scored@.len(), max),
        distinct_ids(scored@) ==> sorted_by_rank(r@),
        forall|i: int| 0 <= i < r@.len() ==> scored@.contains(#[trigger] r@[i]),
{
    let mut out: Vec<(i32, i64)> = Vec::new();
    let mut k: usize = 0;
    assert(scored@.subrange(0, 0) =~= Seq::<(i32, i64)>::empty());
    while k < scored.len()
        invariant
            k <= scored@.len(),
            out@ == ranked(scored@.subrange(0, k as int)),
        decreases scored@.len() - k,
    {
        insert_sorted(&mut out, scored[k]);
        proof {
            let p = scored@.subrange(0, k + 1);
            assert(p.drop_last() =~= scored@.subrange(0, k as int));
        }
        k = k + 1;
    }
    proof {
        assert(scored@.subrange(0, k as int) =~= scored@);
        lemma_ranked(scored@);
    }
    let limit: usize = match max {
        Some(m) => m,
        None => 10,
    };
    if limit < out.len() {
        out.truncate(limit);
    }
    proof {
        let rk = ranked(scored@);
        assert(out@ =~= rk.subrange(0, result_count(scored@.len(), max) as int));
        assert forall|i: int| 0 <= i < out@.len() implies scored@.contains(#[trigger] out@[i]) by {
            broadcast use vstd::seq_lib::group_to_multiset_ensures;
            assert(out@[i] == rk[i]);
            assert(rk.to_multiset().count(rk[i]) > 0);
            assert(scored@.to_multiset().count(rk[i]) > 0);
        }
    }
    out
}

impl Collection {
    /// Scores every term of the query in every selected field, all fields
    /// when `fields` is `None`, and gathers the scores per document, in the
    /// order documents were first scored. A field name that the schema does
    /// not declare is refused.
    pub fn search_hits(&self, query: &str, strict: bool, fields: Option<Vec<String>>) -> (r: Result<Vec<Hit>, EngineError>)
        requires
            self.wf(),
        ensures
            ({
                let names = names_of(fields);
                &&& r is Err <==> selected(self, names) is None
                &&& r is Err ==> r->Err_0 == EngineError::SchemaError
                &&& r is Ok ==> ids_unique(hits_view(r->Ok_0@))
                &&& r is Ok ==> hits_view(r->Ok_0@) == add_ranks(
                    Seq::empty(),
                    query_ranks(self, token_texts(query@), selected(self, names)->0, strict),
                )
            }),
    {
        let ghost names = names_of(fields);
        let mut positions: Vec<usize> = Vec::new();
        match &fields {
            Some(v) => {
                let mut k: usize = 0;
                while k < v.len()
                    invariant
                        k <= v@.len(),
                        fields is Some && fields->0 == *v,
                        names == names_of(fields),
                        self.wf(),
                        positions@.len() == k,
                        forall|a: int| 0 <= a < k ==> {
                            &&& (#[trigger] positions@[a]) < self.schema().len()
                            &&& self.schema()[positions@[a] as int].name@ == v@[a]@
                            &&& self.field_names().contains(v@[a]@)
                        },
                    decreases v@.len() - k,
                {
                    match self.field_position(v[k].as_str()) {
                        Some(p) => positions.push(p),
                        None => {
                            proof {
                                let ns = names->0;
                                assert(ns[k as int] == v@[k as int]@);
                            }
                            return Err(EngineError::SchemaError);
                        },
                    }
                    k = k + 1;
                }
                proof {
                    let ns = names->0;
                    assert(ns.len() == v@.len());
                    assert forall|k: int| 0 <= k < ns.len() implies self.field_names().contains(#[trigger] ns[k]) by {
                        assert(ns[k] == v@[k]@);
                        let p = positions@[k];
                    }
                }
            },
            None => {
                let mut k: usize = 0;
                while k < self.fields().len()
                    invariant
                        k <= self.schema().len(),
                        positions@.len() == k,
                        forall|a: int| 0 <= a < k ==> (#[trigger] positions@[a]) == a,
                    decreases self.schema().len() - k,
                {
                    positions.push(k);
                    k = k + 1;
                }
            },
        }
        let ghost sel = positions@.map_values(|p: usize| self.schema()[p as int]);
        proof {
            if fields is Some {
                let v = fields->0;
                {
                    let ns = names->0;
                    assert forall|k: int| 0 <= k < ns.len() implies sel[k] == ns.map_values(|n: Seq<char>| self.field_named(n))[k] by {
                        assert(ns[k] == v@[k]@);
                        self.lemma_field_named(positions@[k] as int);
                    }
                    assert(sel =~= ns.map_values(|n: Seq<char>| self.field_named(n)));
                    assert(selected(self, names) == Some(ns.map_values(|n: Seq<char>| self.field_named(n))));
                }
            } else {
                assert(sel =~= self.schema());
            }
            assert(selected(self, names) == Some(sel));
        }
        let terms = tokenize(query);
        let fields_all = self.fields();
        let mut hits: Vec<Hit> = Vec::new();
        let ghost tv = terms_view(terms@);
        proof {
            assert(tv.subrange(0, 0) =~= Seq::<Seq<char>>::empty());
            assert(hits_view(hits@) =~= Seq::<(i32, Seq<Score>)>::empty());
        }
        let mut a: usize = 0;
        while a < terms.len()
            invariant
                a <= terms@.len(),
                tv == terms_view(terms@),
                tv == token_texts(query@),
                self.wf(),
                fields_all@ == self.schema(),
                sel == positions@.map_values(|p: usize| self.schema()[p as int]),
                forall|k: int| 0 <= k < positions@.len() ==> (#[trigger] positions@[k]) < self.schema().len(),
                ids_unique(hits_view(hits@)),
                hits_view(hits@) == add_ranks(Seq::empty(), query_ranks(self, tv.subrange(0, a as int), sel, strict)),
            decreases terms@.len() - a,
        {
            let term = &terms[a];
            let ghost before = hits_view(hits@);
            proof {
                assert(sel.subrange(0, 0) =~= Seq::<Field>::empty());
            }
            let mut b: usize = 0;
            while b < positions.len()
                invariant
                    b <= positions@.len(),
                    self.wf(),
                    fields_all@ == self.schema(),
                    sel == positions@.map_values(|p: usize| self.schema()[p as int]),
                    forall|k: int| 0 <= k < positions@.len() ==> (#[trigger] positions@[k]) < self.schema().len(),
                    ids_unique(hits_view(hits@)),
                    hits_view(hits@) == add_ranks(before, term_ranks(self, term@, sel.subrange(0, b as int), strict)),
                decreases positions@.len() - b,
            {
                let field: &Field = &fields_all[positions[b]];
                let ranks = Ranker::rank(term, strict, self, field);
                let ghost mid = hits_view(hits@);
                let mut k: usize = 0;
                while k < ranks.len()
                    invariant
                        k <= ranks@.len(),
                        ids_unique(hits_view(hits@)),
                        hits_view(hits@) == add_ranks(mid, ranks@.subrange(0, k as int)),
                    decreases ranks@.len() - k,
                {
                    add_hit(&mut hits, ranks[k]);
                    proof {
                        let s = ranks@.subrange(0, k + 1);
                        assert(s.drop_last() =~= ranks@.subrange(0, k as int));
                    }
                    k = k + 1;
                }
                proof {
                    assert(ranks@.subrange(0, k as int) =~= ranks@);
                    let sb = sel.subrange(0, b + 1);
                    assert(sb.drop_last() =~= sel.subrange(0, b as int));
                    assert(sb.last() == *field);
                    lemma_add_ranks_append(before, term_ranks(self, term@, sel.subrange(0, b as int), strict), ranks@);
                }
                b = b + 1;
            }
            proof {
                assert(sel.subrange(0, b as int) =~= sel);
                let ta = tv.subrange(0, a + 1);
                assert(ta.drop_last() =~= tv.subrange(0, a as int));
                assert(ta.last() == term@);
                lemma_add_ranks_append(Seq::empty(), query_ranks(self, tv.subrange(0, a as int), sel, strict), term_ranks(self, term@, sel, strict));
            }
            a = a + 1;
        }
        proof {
            assert(tv.subrange(0, a as int) =~= tv);
        }
        Ok(hits)
    }
}

} // verus!
